//! Texts to and from Sonos speakers.
use crate::text::{
    chars_of, find_from, first_at, has_part, lemma_first_at, lemma_replaces_first_and_on,
    occurs_at, replace_all, replaced_from, text_between,
};
use vstd::prelude::*;
use vstd::string::StringExecFns;

verus! {

/// A speaker on the network.
#[derive(Clone)]
pub struct Speaker {
    pub ip: String,
    pub name: String,
    pub model: String,
}

/// How a character is written in XML.
pub open spec fn escape_char(c: char) -> Seq<char> {
    if c == '&' {
        "&amp;"@
    } else if c == '<' {
        "&lt;"@
    } else if c == '>' {
        "&gt;"@
    } else if c == '"' {
        "&quot;"@
    } else {
        seq![c]
    }
}

/// How a text is written in XML.
pub open spec fn escaped(s: Seq<char>) -> Seq<char>
    decreases s.len(),
{
    if s.len() == 0 {
        Seq::empty()
    } else {
        escape_char(s[0]) + escaped(s.skip(1))
    }
}

/// Writes a text for XML.
pub fn xml_escape(s: &str) -> (r: String)
    ensures
        r@ == escaped(s@),
{
    let chars: Vec<char> = chars_of(s);
    let mut out: String = String::new();
    let mut i: usize = 0;
    assert(s@.skip(0) =~= s@);
    assert(out@ + escaped(s@) =~= escaped(s@));
    while i < chars.len()
        invariant
            i <= chars@.len(),
            chars@ == s@,
            out@ + escaped(s@.skip(i as int)) == escaped(s@),
        decreases chars@.len() - i,
    {
        let c: char = chars[i];
        let ghost before = out@;
        let ghost rest = s@.skip(i as int);
        if c == '&' {
            out.append("&amp;");
        } else if c == '<' {
            out.append("&lt;");
        } else if c == '>' {
            out.append("&gt;");
        } else if c == '"' {
            out.append("&quot;");
        } else {
            out.push(c);
        }
        i += 1;
        proof {
            assert(rest.skip(1) =~= s@.skip(i as int));
            assert(out@ =~= before + escape_char(c));
            assert(out@ + escaped(s@.skip(i as int)) =~= before + escaped(rest));
        }
    }
    assert(out@ =~= escaped(s@));
    out
}

/// How XML text reads: the four escapes stand for their characters.
pub open spec fn unescaped(s: Seq<char>) -> Seq<char>
    decreases s.len(),
{
    if s.len() == 0 {
        Seq::empty()
    } else if s.len() >= 5 && occurs_at(s, "&amp;"@, 0) {
        seq!['&'] + unescaped(s.skip(5))
    } else if s.len() >= 4 && occurs_at(s, "&lt;"@, 0) {
        seq!['<'] + unescaped(s.skip(4))
    } else if s.len() >= 4 && occurs_at(s, "&gt;"@, 0) {
        seq!['>'] + unescaped(s.skip(4))
    } else if s.len() >= 6 && occurs_at(s, "&quot;"@, 0) {
        seq!['"'] + unescaped(s.skip(6))
    } else {
        seq![s[0]] + unescaped(s.skip(1))
    }
}

/// What was written for XML reads back, and has none of the characters that
/// mean something there, but for the escapes themselves.
pub proof fn lemma_escape_round_trip(s: Seq<char>)
    ensures
        unescaped(escaped(s)) == s,
        forall|i: int|
            0 <= i < escaped(s).len() ==> (#[trigger] escaped(s)[i]) != '<' && escaped(s)[i] != '>'
                && escaped(s)[i] != '"',
    decreases s.len(),
{
    reveal_strlit("&amp;");
    reveal_strlit("&lt;");
    reveal_strlit("&gt;");
    reveal_strlit("&quot;");
    if s.len() > 0 {
        let c = s[0];
        let rest = escaped(s.skip(1));
        let all = escape_char(c) + rest;
        let n = escape_char(c).len() as int;
        lemma_escape_round_trip(s.skip(1));
        assert(all.skip(n) =~= rest);
        assert(all.subrange(0, n) =~= escape_char(c));
        if c == '<' {
            assert(all[1] == 'l');
            assert(all.len() >= 5 ==> all.subrange(0, 5)[1] == 'l');
        } else if c == '>' {
            assert(all[1] == 'g');
            assert(all.len() >= 5 ==> all.subrange(0, 5)[1] == 'g');
            assert(all.subrange(0, 4)[1] == 'g');
        } else if c == '"' {
            assert(all[1] == 'q');
            assert(all.subrange(0, 5)[1] == 'q');
            assert(all.subrange(0, 4)[1] == 'q');
        } else if c != '&' {
            assert(all[0] == c);
            assert(all.len() >= 4 ==> all.subrange(0, 4)[0] == c);
            assert(all.len() >= 5 ==> all.subrange(0, 5)[0] == c);
            assert(all.len() >= 6 ==> all.subrange(0, 6)[0] == c);
        }
        assert(unescaped(all) == seq![c] + unescaped(rest));
        assert(seq![c] + s.skip(1) =~= s);
    }
}

/// The tag that opens an element.
pub open spec fn open_tag(tag: Seq<char>) -> Seq<char> {
    "<"@ + tag + ">"@
}

/// The tag that closes an element.
pub open spec fn close_tag(tag: Seq<char>) -> Seq<char> {
    "</"@ + tag + ">"@
}

/// What the first element of a name holds: what stands between its opening tag
/// and the next closing one.
pub open spec fn value_in(xml: Seq<char>, tag: Seq<char>) -> Option<Seq<char>> {
    match first_at(xml, open_tag(tag), 0) {
        Some(pos) => {
            let start = pos + open_tag(tag).len();
            match first_at(xml, close_tag(tag), start) {
                Some(end) => Some(xml.subrange(start, end)),
                None => None,
            }
        },
        None => None,
    }
}

/// Reads what the first element of a name holds.
pub fn extract_xml_value(xml: &str, tag: &str) -> (r: Option<String>)
    ensures
        match r {
            Some(value) => value_in(xml@, tag@) == Some(value@),
            None => value_in(xml@, tag@) is None,
        },
{
    let mut open: String = "<".to_owned();
    open.append(tag);
    open.append(">");
    let mut close: String = "</".to_owned();
    close.append(tag);
    close.append(">");
    let chars: Vec<char> = chars_of(xml);
    let open_chars: Vec<char> = chars_of(open.as_str());
    let close_chars: Vec<char> = chars_of(close.as_str());
    assert(chars@.len() == chars.len());
    match find_from(chars.as_slice(), open_chars.as_slice(), 0) {
        Some(pos) => {
            let start: usize = pos + open_chars.len();
            match find_from(chars.as_slice(), close_chars.as_slice(), start) {
                Some(end) => Some(text_between(chars.as_slice(), start, end)),
                None => None,
            }
        },
        None => None,
    }
}

/// An element gives back the text that was put in it, as long as that has no
/// tags of its own and no such element comes before.
pub proof fn lemma_element_gives_value(
    before: Seq<char>,
    tag: Seq<char>,
    value: Seq<char>,
    after: Seq<char>,
)
    requires
        ({
            let xml = before + open_tag(tag) + value + close_tag(tag) + after;
            forall|k: int| 0 <= k < before.len() ==> !#[trigger] occurs_at(xml, open_tag(tag), k)
        }),
        forall|i: int| 0 <= i < value.len() ==> #[trigger] value[i] != '<',
    ensures
        value_in(before + open_tag(tag) + value + close_tag(tag) + after, tag) == Some(value),
{
    reveal_strlit("</");
    let open = open_tag(tag);
    let close = close_tag(tag);
    let xml = before + open + value + close + after;
    let start = (before.len() + open.len()) as int;
    let end = start + value.len();
    lemma_first_at(xml, open, 0);
    assert(xml.subrange(before.len() as int, start) =~= open);
    assert(occurs_at(xml, open, before.len() as int));
    lemma_first_at(xml, close, start);
    assert(xml.subrange(end, end + close.len()) =~= close);
    assert(occurs_at(xml, close, end));
    assert forall|k: int| start <= k < end implies !#[trigger] occurs_at(xml, close, k) by {
        if occurs_at(xml, close, k) {
            assert(xml.subrange(k, k + close.len())[0] == xml[k]);
            assert(close[0] == '<');
            assert(xml[k] == value[k - start]);
        }
    }
    assert(xml.subrange(start, end) =~= value);
}

/// Where a speaker describes itself.
pub fn description_url(ip: &str) -> (r: String)
    ensures
        r@ == "http://"@ + ip@ + ":1400/xml/device_description.xml"@,
{
    let mut url: String = "http://".to_owned();
    url.append(ip);
    url.append(":1400/xml/device_description.xml");
    url
}

/// The text of an optional value, empty where there is none.
pub open spec fn value_or_empty(xml: Seq<char>, tag: Seq<char>) -> Seq<char> {
    match value_in(xml, tag) {
        Some(value) => value,
        None => Seq::empty(),
    }
}

fn read_or_empty(xml: &str, tag: &str) -> (r: String)
    ensures
        r@ == value_or_empty(xml@, tag@),
{
    match extract_xml_value(xml, tag) {
        Some(value) => value,
        None => String::new(),
    }
}

/// Reads the description of a speaker. One without a room is not a speaker.
pub fn read_speaker(ip: &str, description: &str) -> (r: Option<Speaker>)
    ensures
        match r {
            Some(speaker) => {
                &&& speaker.ip@ == ip@
                &&& speaker.name@ == value_or_empty(description@, "roomName"@)
                &&& speaker.model@ == value_or_empty(description@, "modelName"@)
                &&& speaker.name@.len() > 0
            },
            None => value_or_empty(description@, "roomName"@).len() == 0,
        },
{
    let name: String = read_or_empty(description, "roomName");
    let model: String = read_or_empty(description, "modelName");
    if name.as_str().is_empty() {
        return None;
    }
    Some(Speaker { ip: ip.to_owned(), name, model })
}

/// A stream address as speakers take radio streams.
pub open spec fn radio_url_of(stream_url: Seq<char>) -> Seq<char> {
    replaced_from(
        replaced_from(stream_url, "http://"@, "x-rincon-mp3radio://"@, 0),
        "https://"@,
        "x-rincon-mp3radio://"@,
        0,
    )
}

/// A stream address as speakers take radio streams.
pub fn radio_url(stream_url: &str) -> (r: String)
    ensures
        r@ == radio_url_of(stream_url@),
{
    proof {
        reveal_strlit("http://");
        reveal_strlit("https://");
    }
    let plain: String = replace_all(stream_url, "http://", "x-rincon-mp3radio://");
    replace_all(plain.as_str(), "https://", "x-rincon-mp3radio://")
}

/// The description of a stream that a speaker shows.
pub open spec fn didl_of(title: Seq<char>, art_url: Option<Seq<char>>) -> Seq<char> {
    "<DIDL-Lite xmlns:dc=\"http://purl.org/dc/elements/1.1/\" xmlns:upnp=\"urn:schemas-upnp-org:metadata-1-0/upnp/\" xmlns=\"urn:schemas-upnp-org:metadata-1-0/DIDL-Lite/\"><item id=\"R:0/0/0\" parentID=\"R:0/0\" restricted=\"true\"><dc:title>"@
        + escaped(title)
        + "</dc:title><upnp:class>object.item.audioItem.audioBroadcast</upnp:class>"@ + (
    match art_url {
        Some(url) => "<upnp:albumArtURI>"@ + escaped(url) + "</upnp:albumArtURI>"@,
        None => Seq::empty(),
    }) + "</item></DIDL-Lite>"@
}

/// The description of a stream that a speaker shows.
pub fn didl(title: &str, art_url: Option<&str>) -> (r: String)
    ensures
        r@ == didl_of(
            title@,
            match art_url {
                Some(url) => Some(url@),
                None => None,
            },
        ),
{
    let mut out: String =
        "<DIDL-Lite xmlns:dc=\"http://purl.org/dc/elements/1.1/\" xmlns:upnp=\"urn:schemas-upnp-org:metadata-1-0/upnp/\" xmlns=\"urn:schemas-upnp-org:metadata-1-0/DIDL-Lite/\"><item id=\"R:0/0/0\" parentID=\"R:0/0\" restricted=\"true\"><dc:title>".to_owned();
    out.append(xml_escape(title).as_str());
    out.append("</dc:title><upnp:class>object.item.audioItem.audioBroadcast</upnp:class>");
    let ghost head = out@;
    match art_url {
        Some(url) => {
            out.append("<upnp:albumArtURI>");
            out.append(xml_escape(url).as_str());
            out.append("</upnp:albumArtURI>");
            assert(out@ =~= head + ("<upnp:albumArtURI>"@ + escaped(url@)
                + "</upnp:albumArtURI>"@));
        },
        None => {
            assert(out@ =~= head + Seq::<char>::empty());
        },
    }
    out.append("</item></DIDL-Lite>");
    out
}

/// The arguments that tell a speaker what to play.
pub open spec fn set_uri_arguments_of(
    stream_url: Seq<char>,
    title: Seq<char>,
    art_url: Option<Seq<char>>,
) -> Seq<char> {
    "<InstanceID>0</InstanceID><CurrentURI>"@ + escaped(radio_url_of(stream_url))
        + "</CurrentURI><CurrentURIMetaData>"@ + escaped(didl_of(title, art_url))
        + "</CurrentURIMetaData>"@
}

/// The arguments that tell a speaker what to play.
pub fn set_uri_arguments(stream_url: &str, title: &str, art_url: Option<&str>) -> (r: String)
    ensures
        r@ == set_uri_arguments_of(
            stream_url@,
            title@,
            match art_url {
                Some(url) => Some(url@),
                None => None,
            },
        ),
{
    let mut out: String = "<InstanceID>0</InstanceID><CurrentURI>".to_owned();
    out.append(xml_escape(radio_url(stream_url).as_str()).as_str());
    out.append("</CurrentURI><CurrentURIMetaData>");
    out.append(xml_escape(didl(title, art_url).as_str()).as_str());
    out.append("</CurrentURIMetaData>");
    out
}

/// The arguments that tell a speaker to start.
pub fn play_arguments() -> (r: String)
    ensures
        r@ == "<InstanceID>0</InstanceID><Speed>1</Speed>"@,
{
    "<InstanceID>0</InstanceID><Speed>1</Speed>".to_owned()
}

/// Where a speaker takes commands.
pub fn control_url(ip: &str) -> (r: String)
    ensures
        r@ == "http://"@ + ip@ + ":1400/MediaRenderer/AVTransport/Control"@,
{
    let mut url: String = "http://".to_owned();
    url.append(ip);
    url.append(":1400/MediaRenderer/AVTransport/Control");
    url
}

/// The header that names a command.
pub fn action_header(action: &str) -> (r: String)
    ensures
        r@ == "\"urn:schemas-upnp-org:service:AVTransport:1#"@ + action@ + "\""@,
{
    let mut header: String = "\"urn:schemas-upnp-org:service:AVTransport:1#".to_owned();
    header.append(action);
    header.append("\"");
    header
}

/// A command with its arguments.
pub open spec fn envelope_of(action: Seq<char>, arguments: Seq<char>) -> Seq<char> {
    "<?xml version=\"1.0\" encoding=\"utf-8\"?><s:Envelope xmlns:s=\"http://schemas.xmlsoap.org/soap/envelope/\" s:encodingStyle=\"http://schemas.xmlsoap.org/soap/encoding/\"><s:Body><u:"@
        + action + " xmlns:u=\"urn:schemas-upnp-org:service:AVTransport:1\">"@ + arguments
        + "</u:"@ + action + "></s:Body></s:Envelope>"@
}

/// A command with its arguments.
pub fn envelope(action: &str, arguments: &str) -> (r: String)
    ensures
        r@ == envelope_of(action@, arguments@),
{
    let mut out: String =
        "<?xml version=\"1.0\" encoding=\"utf-8\"?><s:Envelope xmlns:s=\"http://schemas.xmlsoap.org/soap/envelope/\" s:encodingStyle=\"http://schemas.xmlsoap.org/soap/encoding/\"><s:Body><u:".to_owned();
    out.append(action);
    out.append(" xmlns:u=\"urn:schemas-upnp-org:service:AVTransport:1\">");
    out.append(arguments);
    out.append("</u:");
    out.append(action);
    out.append("></s:Body></s:Envelope>");
    out
}

/// An element gives back the text between its tags, `<tag>` and `</tag>`, as
/// long as that has no tags of its own and no such element comes before; where
/// nothing opens it there is none.
pub proof fn lemma_element_is_read(
    before: Seq<char>,
    tag: Seq<char>,
    value: Seq<char>,
    after: Seq<char>,
)
    requires
        forall|i: int| 0 <= i < before.len() ==> #[trigger] before[i] != '<',
        forall|i: int| 0 <= i < value.len() ==> #[trigger] value[i] != '<',
    ensures
        value_in(
            before + (seq!['<'] + tag + seq!['>']) + value + (seq!['<', '/'] + tag + seq!['>'])
                + after,
            tag,
        ) == Some(value),
        value_in(before, tag) is None,
{
    reveal_strlit("<");
    reveal_strlit(">");
    reveal_strlit("</");
    let open = seq!['<'] + tag + seq!['>'];
    let close = seq!['<', '/'] + tag + seq!['>'];
    assert(open_tag(tag) =~= open);
    assert(close_tag(tag) =~= close);
    let xml = before + open + value + close + after;
    assert forall|k: int| 0 <= k < before.len() implies !#[trigger] occurs_at(xml, open, k) by {
        if occurs_at(xml, open, k) {
            assert(xml.subrange(k, k + open.len())[0] == xml[k]);
            assert(xml[k] == before[k]);
        }
    }
    lemma_element_gives_value(before, tag, value, after);
    lemma_first_at(before, open, 0);
    match first_at(before, open, 0) {
        Some(k) => {
            assert(before.subrange(k, k + open.len())[0] == before[k]);
        },
        None => {},
    }
}

/// A text between two others is a part of the whole.
proof fn lemma_part_between(before: Seq<char>, part: Seq<char>, after: Seq<char>)
    ensures
        has_part(before + part + after, part),
{
    let all = before + part + after;
    let n = before.len() as int;
    assert(all.subrange(n, n + part.len()) =~= part);
    assert(occurs_at(all, part, n));
}

/// A speaker is told the address of the stream and its description, both
/// escaped, and the description has the title, and the artwork where there is
/// any, escaped too.
#[verifier::spinoff_prover]
#[verifier::rlimit(60)]
pub proof fn lemma_speaker_is_told(
    stream_url: Seq<char>,
    title: Seq<char>,
    art_url: Option<Seq<char>>,
)
    ensures
        ({
            let arguments = set_uri_arguments_of(stream_url, title, art_url);
            let description = didl_of(title, art_url);
            &&& has_part(
                arguments,
                "<CurrentURI>"@ + escaped(radio_url_of(stream_url)) + "</CurrentURI>"@,
            )
            &&& has_part(
                arguments,
                "<CurrentURIMetaData>"@ + escaped(description) + "</CurrentURIMetaData>"@,
            )
            &&& has_part(description, "<dc:title>"@ + escaped(title) + "</dc:title>"@)
            &&& art_url matches Some(url) ==> has_part(
                description,
                "<upnp:albumArtURI>"@ + escaped(url) + "</upnp:albumArtURI>"@,
            )
        }),
{
    reveal_strlit("<InstanceID>0</InstanceID><CurrentURI>");
    reveal_strlit("</CurrentURI><CurrentURIMetaData>");
    reveal_strlit("</CurrentURIMetaData>");
    reveal_strlit("<CurrentURI>");
    reveal_strlit("</CurrentURI>");
    reveal_strlit("<CurrentURIMetaData>");
    let arguments = set_uri_arguments_of(stream_url, title, art_url);
    let uri = escaped(radio_url_of(stream_url));
    let description = didl_of(title, art_url);
    let meta = escaped(description);
    let lead = "<InstanceID>0</InstanceID><CurrentURI>"@;
    let middle = "</CurrentURI><CurrentURIMetaData>"@;
    let first = "<CurrentURI>"@ + uri + "</CurrentURI>"@;
    let second = "<CurrentURIMetaData>"@ + meta + "</CurrentURIMetaData>"@;
    assert(lead =~= lead.take(26) + "<CurrentURI>"@);
    assert(middle =~= "</CurrentURI>"@ + "<CurrentURIMetaData>"@);
    assert(arguments =~= lead.take(26) + first + second);
    lemma_part_between(lead.take(26), first, second);
    assert(arguments =~= (lead.take(26) + first) + second + Seq::<char>::empty());
    lemma_part_between(lead.take(26) + first, second, Seq::empty());
    lemma_description_has_fields(title, art_url);
}

#[verifier::spinoff_prover]
#[verifier::rlimit(60)]
proof fn lemma_description_has_fields(title: Seq<char>, art_url: Option<Seq<char>>)
    ensures
        has_part(didl_of(title, art_url), "<dc:title>"@ + escaped(title) + "</dc:title>"@),
        art_url matches Some(url) ==> has_part(
            didl_of(title, art_url),
            "<upnp:albumArtURI>"@ + escaped(url) + "</upnp:albumArtURI>"@,
        ),
{
    reveal_strlit(
        "<DIDL-Lite xmlns:dc=\"http://purl.org/dc/elements/1.1/\" xmlns:upnp=\"urn:schemas-upnp-org:metadata-1-0/upnp/\" xmlns=\"urn:schemas-upnp-org:metadata-1-0/DIDL-Lite/\"><item id=\"R:0/0/0\" parentID=\"R:0/0\" restricted=\"true\"><dc:title>",
    );
    reveal_strlit("</dc:title><upnp:class>object.item.audioItem.audioBroadcast</upnp:class>");
    reveal_strlit("<dc:title>");
    reveal_strlit("</dc:title>");
    let lead =
        "<DIDL-Lite xmlns:dc=\"http://purl.org/dc/elements/1.1/\" xmlns:upnp=\"urn:schemas-upnp-org:metadata-1-0/upnp/\" xmlns=\"urn:schemas-upnp-org:metadata-1-0/DIDL-Lite/\"><item id=\"R:0/0/0\" parentID=\"R:0/0\" restricted=\"true\"><dc:title>"@;
    let middle = "</dc:title><upnp:class>object.item.audioItem.audioBroadcast</upnp:class>"@;
    let end = "</item></DIDL-Lite>"@;
    let art = match art_url {
        Some(url) => "<upnp:albumArtURI>"@ + escaped(url) + "</upnp:albumArtURI>"@,
        None => Seq::empty(),
    };
    let all = didl_of(title, art_url);
    let n = lead.len() - 10;
    let m = middle.len() as int;
    let named = "<dc:title>"@ + escaped(title) + "</dc:title>"@;
    assert(lead.skip(n) =~= "<dc:title>"@);
    assert(middle.take(11) =~= "</dc:title>"@);
    assert(lead =~= lead.take(n) + "<dc:title>"@);
    assert(middle =~= "</dc:title>"@ + middle.skip(11));
    assert(all =~= lead.take(n) + named + (middle.skip(11) + art + end));
    lemma_part_between(lead.take(n), named, middle.skip(11) + art + end);
    assert(all =~= (lead + escaped(title) + middle) + art + end);
    lemma_part_between(lead + escaped(title) + middle, art, end);
}

/// A stream address is handed to a speaker with its scheme, with or without
/// TLS, put for that of radio streams, and the rest as it is.
#[verifier::spinoff_prover]
#[verifier::rlimit(60)]
pub proof fn lemma_radio_url_keeps_the_rest(rest: Seq<char>)
    requires
        !has_part(rest, "http://"@),
        !has_part(rest, "https://"@),
    ensures
        radio_url_of("http://"@ + rest) == "x-rincon-mp3radio://"@ + rest,
        radio_url_of("https://"@ + rest) == "x-rincon-mp3radio://"@ + rest,
{
    reveal_strlit("http://");
    reveal_strlit("https://");
    reveal_strlit("x-rincon-mp3radio://");
    let plain = "http://"@;
    let tls = "https://"@;
    let radio = "x-rincon-mp3radio://"@;
    lemma_scheme_is_replaced(plain, radio, rest);
    lemma_scheme_is_replaced(tls, radio, rest);
    let done = radio + rest;
    assert forall|k: int| !#[trigger] occurs_at(done, tls, k) by {
        if occurs_at(done, tls, k) {
            assert(done.subrange(k, k + 8)[0] == done[k]);
            if k >= 20 {
                assert(done.subrange(k, k + 8) =~= rest.subrange(k - 20, k - 12));
                assert(occurs_at(rest, tls, k - 20));
            }
        }
    }
    lemma_nothing_to_replace(done, tls, radio);
    let secure = tls + rest;
    assert forall|k: int| !#[trigger] occurs_at(secure, plain, k) by {
        if occurs_at(secure, plain, k) {
            let found = secure.subrange(k, k + 7);
            assert(found[0] == secure[k]);
            assert(found[4] == secure[k + 4]);
            if k >= 8 {
                assert(found =~= rest.subrange(k - 8, k - 1));
                assert(occurs_at(rest, plain, k - 8));
            }
        }
    }
    lemma_nothing_to_replace(secure, plain, radio);
}

proof fn lemma_nothing_to_replace(s: Seq<char>, part: Seq<char>, with: Seq<char>)
    requires
        part.len() > 0,
        forall|k: int| !#[trigger] occurs_at(s, part, k),
    ensures
        replaced_from(s, part, with, 0) == s,
{
    lemma_first_at(s, part, 0);
    lemma_replaces_first_and_on(s, part, with);
}

proof fn lemma_scheme_is_replaced(scheme: Seq<char>, with: Seq<char>, rest: Seq<char>)
    requires
        scheme.len() > 0,
        !has_part(rest, scheme),
    ensures
        replaced_from(scheme + rest, scheme, with, 0) == with + rest,
{
    let all = scheme + rest;
    let n = scheme.len() as int;
    lemma_first_at(all, scheme, 0);
    assert(all.subrange(0, n) =~= scheme);
    assert(occurs_at(all, scheme, 0));
    lemma_replaces_first_and_on(all, scheme, with);
    assert(all.skip(n) =~= rest);
    assert(all.take(0) + with =~= with);
    assert forall|k: int| !#[trigger] occurs_at(rest, scheme, k) by {}
    lemma_nothing_to_replace(rest, scheme, with);
}

/// A command names its action at both ends, and has its arguments between.
#[verifier::spinoff_prover]
#[verifier::rlimit(60)]
pub proof fn lemma_command_holds_arguments(action: Seq<char>, arguments: Seq<char>)
    ensures
        has_part(
            envelope_of(action, arguments),
            "<u:"@ + action + " xmlns:u=\"urn:schemas-upnp-org:service:AVTransport:1\">"@
                + arguments + "</u:"@ + action + ">"@,
        ),
{
    reveal_strlit(
        "<?xml version=\"1.0\" encoding=\"utf-8\"?><s:Envelope xmlns:s=\"http://schemas.xmlsoap.org/soap/envelope/\" s:encodingStyle=\"http://schemas.xmlsoap.org/soap/encoding/\"><s:Body><u:",
    );
    reveal_strlit("></s:Body></s:Envelope>");
    reveal_strlit("<u:");
    reveal_strlit(">");
    let lead =
        "<?xml version=\"1.0\" encoding=\"utf-8\"?><s:Envelope xmlns:s=\"http://schemas.xmlsoap.org/soap/envelope/\" s:encodingStyle=\"http://schemas.xmlsoap.org/soap/encoding/\"><s:Body><u:"@;
    let end = "></s:Body></s:Envelope>"@;
    let n = lead.len() - 3;
    let inner = action + " xmlns:u=\"urn:schemas-upnp-org:service:AVTransport:1\">"@ + arguments
        + "</u:"@ + action;
    let part = "<u:"@ + action + " xmlns:u=\"urn:schemas-upnp-org:service:AVTransport:1\">"@
        + arguments + "</u:"@ + action + ">"@;
    assert(lead.skip(n) =~= "<u:"@);
    assert(lead =~= lead.take(n) + "<u:"@);
    assert(end =~= ">"@ + end.skip(1));
    assert(part =~= "<u:"@ + inner + ">"@);
    assert(envelope_of(action, arguments) =~= lead + inner + end);
    assert(lead + inner + end =~= lead.take(n) + part + end.skip(1));
    lemma_part_between(lead.take(n), part, end.skip(1));
}

/// Each character is written by itself: ampersand, angle brackets and the
/// double quote as their escapes, every other as it is.
#[verifier::spinoff_prover]
#[verifier::rlimit(60)]
pub proof fn lemma_characters_are_escaped(before: Seq<char>, c: char, after: Seq<char>)
    ensures
        escaped(before + seq![c] + after) == escaped(before) + (if c == '&' {
            seq!['&', 'a', 'm', 'p', ';']
        } else if c == '<' {
            seq!['&', 'l', 't', ';']
        } else if c == '>' {
            seq!['&', 'g', 't', ';']
        } else if c == '"' {
            seq!['&', 'q', 'u', 'o', 't', ';']
        } else {
            seq![c]
        }) + escaped(after),
        escaped(Seq::empty()) == Seq::<char>::empty(),
    decreases before.len(),
{
    reveal_strlit("&amp;");
    reveal_strlit("&lt;");
    reveal_strlit("&gt;");
    reveal_strlit("&quot;");
    let all = before + seq![c] + after;
    if before.len() == 0 {
        assert(all[0] == c);
        assert(all.skip(1) =~= after);
        assert(escaped(before) =~= Seq::empty());
        assert(escape_char(c) =~= (if c == '&' {
            seq!['&', 'a', 'm', 'p', ';']
        } else if c == '<' {
            seq!['&', 'l', 't', ';']
        } else if c == '>' {
            seq!['&', 'g', 't', ';']
        } else if c == '"' {
            seq!['&', 'q', 'u', 'o', 't', ';']
        } else {
            seq![c]
        }));
        assert(escaped(before) + escape_char(c) + escaped(after) =~= escape_char(c) + escaped(
            after,
        ));
    } else {
        lemma_characters_are_escaped(before.skip(1), c, after);
        assert(all.skip(1) =~= before.skip(1) + seq![c] + after);
        assert(all[0] == before[0]);
        let first = escape_char(before[0]);
        let own = escape_char(c);
        assert(escaped(all) =~= first + escaped(all.skip(1)));
        assert(escaped(before) =~= first + escaped(before.skip(1)));
    }
}

/// What a description lacks reads as empty.
pub proof fn lemma_missing_element_is_empty(xml: Seq<char>, tag: Seq<char>)
    ensures
        value_in(xml, tag) is None ==> value_or_empty(xml, tag).len() == 0,
        value_in(xml, tag) matches Some(value) ==> value_or_empty(xml, tag) == value,
{
}

} // verus!
