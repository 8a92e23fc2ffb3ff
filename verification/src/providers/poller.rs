//! What a poller makes of the replies that it gets.
use super::abc::{option_text, NowPlaying};
use vstd::prelude::*;
use vstd::string::StringExecFns;

verus! {

/// What listeners are shown.
pub struct TrackUpdate {
    pub artwork_url: Option<String>,
    pub title: String,
    pub artist: String,
}

/// What an update says.
pub struct UpdateView {
    pub artwork_url: Option<Seq<char>>,
    pub title: Seq<char>,
    pub artist: Seq<char>,
}

impl View for TrackUpdate {
    type V = UpdateView;

    open spec fn view(&self) -> UpdateView {
        UpdateView {
            artwork_url: option_text(self.artwork_url),
            title: self.title@,
            artist: self.artist@,
        }
    }
}

/// An optional update, by what it says.
pub open spec fn update_view(u: Option<TrackUpdate>) -> Option<UpdateView> {
    match u {
        Some(update) => Some(update@),
        None => None,
    }
}

/// The line that stands for a track.
pub open spec fn track_line(artist: Seq<char>, title: Seq<char>) -> Seq<char> {
    artist + " - "@ + title
}

/// A track is playing: it is shown, unless it is what was shown last.
pub open spec fn playing(
    last: Seq<char>,
    artist: Seq<char>,
    title: Seq<char>,
    art_url: Option<Seq<char>>,
) -> (Option<UpdateView>, Seq<char>) {
    let line = track_line(artist, title);
    if line == last {
        (None, last)
    } else {
        (Some(UpdateView { artwork_url: art_url, title, artist }), line)
    }
}

/// No track is playing: the program is shown instead, as a title without
/// artwork, unless it is what was shown last. Without a program, what is shown
/// is cleared, once.
pub open spec fn no_track(last: Seq<char>, program: Option<Seq<char>>) -> (
    Option<UpdateView>,
    Seq<char>,
) {
    let title = match program {
        Some(p) => p,
        None => Seq::empty(),
    };
    if title == last {
        (None, last)
    } else {
        (Some(UpdateView { artwork_url: None, title, artist: Seq::empty() }), title)
    }
}

/// Remembers what was shown last.
pub struct PollerState {
    last_title: String,
}

impl View for PollerState {
    type V = Seq<char>;

    closed spec fn view(&self) -> Seq<char> {
        self.last_title@
    }
}

impl PollerState {
    /// Nothing was shown yet.
    pub fn new() -> (r: Self)
        ensures
            r@ == Seq::<char>::empty(),
    {
        Self { last_title: String::new() }
    }

    /// A track is playing. Returns what to show, if that is new.
    pub fn on_playing(&mut self, np: NowPlaying) -> (r: Option<TrackUpdate>)
        ensures
            (update_view(r), final(self)@) == playing(
                old(self)@,
                np.artist@,
                np.title@,
                option_text(np.art_url),
            ),
    {
        let mut line: String = np.artist.clone();
        line.append(" - ");
        line.append(np.title.as_str());
        if line == self.last_title {
            return None;
        }
        self.last_title = line;
        Some(TrackUpdate { artwork_url: np.art_url, title: np.title, artist: np.artist })
    }

    /// No track is playing. Returns what to show, if that is new.
    pub fn on_program(&mut self, program: Option<String>) -> (r: Option<TrackUpdate>)
        ensures
            (update_view(r), final(self)@) == no_track(old(self)@, option_text(program)),
    {
        let title: String = match program {
            Some(p) => p,
            None => String::new(),
        };
        if title == self.last_title {
            return None;
        }
        self.last_title = title.clone();
        Some(TrackUpdate { artwork_url: None, title, artist: String::new() })
    }
}

/// Hearing the same twice changes nothing the second time.
pub proof fn lemma_repeated_reply_is_quiet(
    last: Seq<char>,
    artist: Seq<char>,
    title: Seq<char>,
    art_url: Option<Seq<char>>,
    program: Option<Seq<char>>,
)
    ensures
        ({
            let after = playing(last, artist, title, art_url).1;
            playing(after, artist, title, art_url) == (None::<UpdateView>, after)
        }),
        ({
            let after = no_track(last, program).1;
            no_track(after, program) == (None::<UpdateView>, after)
        }),
{
}

/// When a track ends and there is no program, what is shown is cleared.
pub proof fn lemma_ended_track_is_cleared(artist: Seq<char>, title: Seq<char>)
    ensures
        no_track(track_line(artist, title), None) == (
            Some(
                UpdateView { artwork_url: None, title: Seq::empty(), artist: Seq::empty() },
            ),
            Seq::<char>::empty(),
        ),
{
    reveal_strlit(" - ");
    assert(track_line(artist, title).len() >= 3);
}

/// A track is shown exactly where its line, artist and title joined by a dash
/// between spaces, is not what was shown last; it is shown with its own artist,
/// title and artwork, and remembered.
pub proof fn lemma_new_track_is_shown(
    last: Seq<char>,
    artist: Seq<char>,
    title: Seq<char>,
    art_url: Option<Seq<char>>,
)
    ensures
        ({
            let line = artist + seq![' ', '-', ' '] + title;
            let (shown, after) = playing(last, artist, title, art_url);
            &&& shown is None <==> line == last
            &&& shown matches Some(u) ==> u.artist == artist && u.title == title && u.artwork_url
                == art_url
            &&& after == line
        }),
{
    reveal_strlit(" - ");
    assert(" - "@ =~= seq![' ', '-', ' ']);
}

/// Without a track the program is shown as a title, without artist and artwork,
/// exactly where it is not what was shown last; without a program too, what is
/// shown is cleared, unless it is already.
pub proof fn lemma_program_is_shown(last: Seq<char>, program: Option<Seq<char>>)
    ensures
        ({
            let (shown, after) = no_track(last, program);
            &&& program matches Some(p) ==> after == p && (shown is None <==> p == last) && (
            shown matches Some(u) ==> u.title == p)
            &&& program is None ==> after.len() == 0 && (shown is None <==> last.len() == 0) && (
            shown matches Some(u) ==> u.title.len() == 0)
            &&& shown matches Some(u) ==> u.artist.len() == 0 && u.artwork_url is None
        }),
{
    if last.len() == 0 {
        assert(last =~= Seq::empty());
    }
}

/// A track that comes back after a program is shown again.
pub proof fn lemma_track_comes_back(
    artist: Seq<char>,
    title: Seq<char>,
    art_url: Option<Seq<char>>,
    program: Option<Seq<char>>,
)
    requires
        program matches Some(p) ==> p != artist + seq![' ', '-', ' '] + title,
    ensures
        ({
            let played = playing(Seq::empty(), artist, title, art_url).1;
            let between = no_track(played, program).1;
            playing(between, artist, title, art_url).0 is Some
        }),
{
    lemma_new_track_is_shown(Seq::empty(), artist, title, art_url);
    let line = artist + seq![' ', '-', ' '] + title;
    assert(line.len() >= 3);
    lemma_program_is_shown(line, program);
    lemma_new_track_is_shown(no_track(line, program).1, artist, title, art_url);
}

} // verus!
