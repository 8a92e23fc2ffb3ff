//! The channels that are running, each once.
use crate::text::same_text;
use vstd::prelude::*;

verus! {

/// Whether a channel stands at place `i` of a list.
pub open spec fn is_at(channels: Seq<String>, channel: Seq<char>, i: int) -> bool {
    0 <= i < channels.len() && channels[i]@ == channel
}

/// Where a channel stands among those that are running.
pub fn running_at(channels: &Vec<String>, channel: &str) -> (r: Option<usize>)
    ensures
        match r {
            Some(i) => is_at(channels@, channel@, i as int),
            None => forall|i: int| !#[trigger] is_at(channels@, channel@, i),
        },
        match r {
            Some(i) => i < channels@.len() && channels@[i as int]@ == channel@,
            None => forall|i: int|
                0 <= i < channels@.len() ==> (#[trigger] channels@[i])@ != channel@,
        },
{
    let mut i: usize = 0;
    while i < channels.len()
        invariant
            forall|k: int| 0 <= k < i ==> !#[trigger] is_at(channels@, channel@, k),
        decreases channels@.len() - i,
    {
        if same_text(channels[i].as_str(), channel) {
            assert(is_at(channels@, channel@, i as int));
            return Some(i);
        }
        i += 1;
    }
    assert forall|k: int| 0 <= k < channels@.len() implies (#[trigger] channels@[k])@
        != channel@ by {
        assert(!is_at(channels@, channel@, k));
    }
    None
}

/// What to do about a request for a channel.
pub enum SessionStep<'a, T> {
    /// It is running: its session is used.
    Reuse(&'a T),
    /// It is to be started.
    Start,
}

/// The sessions of the channels that are running.
pub struct Sessions<T> {
    channels: Vec<String>,
    sessions: Vec<T>,
}

/// The sessions after an attempt to start a channel, which gave a session or
/// failed.
pub open spec fn after_start<T>(
    sessions: Map<Seq<char>, T>,
    channel: Seq<char>,
    started: Option<T>,
) -> Map<Seq<char>, T> {
    match started {
        Some(session) => sessions.insert(channel, session),
        None => sessions,
    }
}

impl<T> View for Sessions<T> {
    type V = Map<Seq<char>, T>;

    closed spec fn view(&self) -> Map<Seq<char>, T> {
        Map::new(
            |channel: Seq<char>| exists|i: int| #[trigger] is_at(self.channels@, channel, i),
            |channel: Seq<char>|
                self.sessions@[choose|i: int| #[trigger] is_at(self.channels@, channel, i)],
        )
    }
}

impl<T> Sessions<T> {
    /// Every channel has one session.
    pub closed spec fn is_sound(&self) -> bool {
        &&& self.channels@.len() == self.sessions@.len()
        &&& forall|i: int, j: int|
            0 <= i < j < self.channels@.len() ==> (#[trigger] self.channels@[i])@ != (
            #[trigger] self.channels@[j])@
    }

    /// No channel is running.
    pub fn new() -> (r: Self)
        ensures
            r.is_sound(),
            r@ == Map::<Seq<char>, T>::empty(),
    {
        let r = Self { channels: Vec::new(), sessions: Vec::new() };
        assert(r@ =~= Map::empty());
        r
    }

    proof fn lemma_session_at(&self, i: int)
        requires
            self.is_sound(),
            0 <= i < self.channels@.len(),
        ensures
            self@.contains_key(self.channels@[i]@),
            self@[self.channels@[i]@] == self.sessions@[i],
    {
        assert(is_at(self.channels@, self.channels@[i]@, i));
    }

    /// The channels that are running, each once.
    pub fn channels(&self) -> (r: &Vec<String>)
        requires
            self.is_sound(),
        ensures
            forall|channel: Seq<char>| #[trigger]
                self@.contains_key(channel) <==> exists|i: int| #[trigger] is_at(r@, channel, i),
            forall|i: int, j: int|
                0 <= i < j < r@.len() ==> (#[trigger] r@[i])@ != (#[trigger] r@[j])@,
    {
        &self.channels
    }

    /// The session of a channel.
    pub fn get(&self, channel: &str) -> (r: Option<&T>)
        requires
            self.is_sound(),
        ensures
            match r {
                Some(session) => self@.contains_key(channel@) && *session == self@[channel@],
                None => !self@.contains_key(channel@),
            },
    {
        match running_at(&self.channels, channel) {
            Some(i) => {
                proof {
                    self.lemma_session_at(i as int);
                }
                Some(&self.sessions[i])
            },
            None => None,
        }
    }

    /// Decides about a request for a channel: one that is running is not
    /// started again.
    pub fn step(&self, channel: &str) -> (r: SessionStep<'_, T>)
        requires
            self.is_sound(),
        ensures
            match r {
                SessionStep::Reuse(session) => self@.contains_key(channel@) && *session
                    == self@[channel@],
                SessionStep::Start => !self@.contains_key(channel@),
            },
    {
        match self.get(channel) {
            Some(session) => SessionStep::Reuse(session),
            None => SessionStep::Start,
        }
    }

    /// Takes in the outcome of starting a channel. A session that came of it is
    /// kept; a start that failed leaves all as it is, and its error is handed
    /// on.
    pub fn started<E>(&mut self, channel: &str, outcome: Result<T, E>) -> (r: Result<(), E>)
        requires
            old(self).is_sound(),
        ensures
            final(self).is_sound(),
            final(self)@ == after_start(
                old(self)@,
                channel@,
                match outcome {
                    Ok(session) => Some(session),
                    Err(_) => None,
                },
            ),
            match outcome {
                Ok(_) => r is Ok,
                Err(e) => r == Err::<(), E>(e),
            },
    {
        match outcome {
            Ok(session) => {
                self.keep(channel, session);
                Ok(())
            },
            Err(e) => Err(e),
        }
    }

    fn keep(&mut self, channel: &str, session: T)
        requires
            old(self).is_sound(),
        ensures
            final(self).is_sound(),
            final(self)@ == old(self)@.insert(channel@, session),
    {
        let ghost before = *self;
        match running_at(&self.channels, channel) {
            Some(i) => {
                self.sessions.set(i, session);
                proof {
                    assert(is_at(self.channels@, channel@, i as int));
                }
            },
            None => {
                self.channels.push(channel.to_owned());
                self.sessions.push(session);
                proof {
                    let last = before.channels@.len() as int;
                    assert(is_at(self.channels@, channel@, last));
                    assert forall|k: int| 0 <= k < last implies (#[trigger] self.channels@[k])@
                        != channel@ by {
                        assert(!is_at(before.channels@, channel@, k));
                    }
                }
            },
        }
        proof {
            assert forall|c: Seq<char>| self@.contains_key(c) == before@.insert(
                channel@,
                session,
            ).contains_key(c) by {
                if exists|k: int| is_at(before.channels@, c, k) {
                    let k = choose|k: int| is_at(before.channels@, c, k);
                    assert(is_at(self.channels@, c, k));
                }
                if exists|k: int| is_at(self.channels@, c, k) {
                    let k = choose|k: int| is_at(self.channels@, c, k);
                    assert(c == channel@ || is_at(before.channels@, c, k));
                }
            }
            assert forall|c: Seq<char>| self@.contains_key(c) implies self@[c] == before@.insert(
                channel@,
                session,
            )[c] by {
                let k = choose|k: int| is_at(self.channels@, c, k);
                self.lemma_session_at(k);
                if c != channel@ {
                    before.lemma_session_at(k);
                }
            }
            assert(self@ =~= before@.insert(channel@, session));
        }
    }

    /// Takes a channel out, and returns its session.
    pub fn remove(&mut self, channel: &str) -> (r: Option<T>)
        requires
            old(self).is_sound(),
        ensures
            final(self).is_sound(),
            final(self)@ == old(self)@.remove(channel@),
            match r {
                Some(session) => old(self)@.contains_key(channel@) && session
                    == old(self)@[channel@],
                None => !old(self)@.contains_key(channel@),
            },
    {
        let ghost before = *self;
        match running_at(&self.channels, channel) {
            Some(i) => {
                let _ = self.channels.remove(i);
                let session: T = self.sessions.remove(i);
                proof {
                    before.lemma_session_at(i as int);
                    let at = |k: int|
                        if k < i {
                            k
                        } else {
                            k + 1
                        };
                    assert forall|k: int| 0 <= k < self.channels@.len() implies (
                    #[trigger] self.channels@[k]) == before.channels@[at(k)] && self.sessions@[k]
                        == before.sessions@[at(k)] by {}
                    assert forall|c: Seq<char>| self@.contains_key(c) == before@.remove(
                        channel@,
                    ).contains_key(c) by {
                        if exists|k: int| is_at(before.channels@, c, k) {
                            let k = choose|k: int| is_at(before.channels@, c, k);
                            if k < i {
                                assert(is_at(self.channels@, c, k));
                            } else if k > i {
                                assert(self.channels@[k - 1] == before.channels@[k]);
                                assert(is_at(self.channels@, c, k - 1));
                            }
                        }
                        if exists|k: int| is_at(self.channels@, c, k) {
                            let k = choose|k: int| is_at(self.channels@, c, k);
                            assert(is_at(before.channels@, c, at(k)));
                            assert(c != channel@);
                        }
                    }
                    assert forall|c: Seq<char>| self@.contains_key(c) implies self@[c]
                        == before@.remove(channel@)[c] by {
                        let k = choose|k: int| is_at(self.channels@, c, k);
                        self.lemma_session_at(k);
                        before.lemma_session_at(at(k));
                    }
                    assert(self@ =~= before@.remove(channel@));
                }
                Some(session)
            },
            None => {
                assert(self@ =~= before@.remove(channel@));
                None
            },
        }
    }
}

/// Starting a channel leaves the sessions of all others alone. If it succeeds,
/// the channel is running with the new session; if it fails, nothing is stored.
pub proof fn lemma_start_leaves_others<T>(
    sessions: Map<Seq<char>, T>,
    channel: Seq<char>,
    started: Option<T>,
    other: Seq<char>,
)
    ensures
        ({
            let after = after_start(sessions, channel, started);
            &&& other != channel ==> after.contains_key(other) == sessions.contains_key(other)
            &&& other != channel && sessions.contains_key(other) ==> after[other]
                == sessions[other]
            &&& started matches Some(session) ==> after.contains_key(channel) && after[channel]
                == session
            &&& started is None ==> after == sessions
        }),
{
}

/// A channel is running where one with just its name is.
pub proof fn lemma_channels_go_by_name(channels: Seq<String>, channel: Seq<char>, i: int)
    ensures
        is_at(channels, channel, i) <==> 0 <= i < channels.len() && channels[i]@ == channel,
{
}

} // verus!
