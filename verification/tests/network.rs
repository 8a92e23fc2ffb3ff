use radio_bridge::discovery::{
    describes_tuner, description_url, first_found, hosts_in, read_ping_address, socket_text,
    subnets_from,
};
use radio_bridge::sonos::{
    action_header, control_url, didl, envelope, extract_xml_value, play_arguments, radio_url,
    read_speaker, set_uri_arguments, xml_escape,
};

fn list(items: &[&str]) -> Vec<String> {
    items.iter().map(|s| s.to_string()).collect()
}

#[test]
fn networks_are_found_once() {
    assert_eq!(subnets_from(&list(&["192.168.4.20", "10.0.0.7"]), None), ["192.168.4.0", "10.0.0.0"]);
    assert_eq!(subnets_from(&list(&["10.0.0.7", "10.0.0.8"]), None), ["10.0.0.0"]);
    assert_eq!(subnets_from(&list(&["fe80::1"]), None), ["192.168.1.0"]);
    assert_eq!(subnets_from(&[].to_vec(), None), ["192.168.1.0"]);
}

#[test]
fn networks_are_read_from_the_routing_table() {
    let table = "Main:\n  +-- 0.0.0.0/0 3 0 5\n     |-- 192.168.4.0\n        /24 link UNICAST\n     |-- 192.168.4.255\n     +-- 10.1.0.0/16 2 0 2\r\n        |-- |-- 172.17.0.1\n     |-- 127.0.0.1\n  192.168.9.1\n     |-- 10.x";
    assert_eq!(
        subnets_from(&list(&["10.9.9.9"]), Some(table)),
        ["10.9.9.0", "192.168.4.0", "10.1.0.0", "172.17.0.0", "10.0"]
    );
    assert_eq!(subnets_from(&[].to_vec(), Some("")), ["192.168.1.0"]);
}

#[test]
fn every_host_of_a_network_is_looked_at() {
    let hosts = hosts_in(&list(&["192.168.4.0", "lan"]));
    assert_eq!(hosts.len(), 508);
    assert_eq!(hosts[0], "192.168.4.1");
    assert_eq!(hosts[253], "192.168.4.254");
    assert_eq!(hosts[254], "lan.1");
    assert_eq!(hosts[507], "lan.254");
    assert_eq!(socket_text("192.168.4.1", 1400), "192.168.4.1:1400");
}

#[test]
fn tuners_are_recognised() {
    let output = "PING hdhomerun.local (192.168.4.204) 56(84) bytes of data.";
    assert_eq!(read_ping_address(output), Some("192.168.4.204".to_string()));
    assert_eq!(read_ping_address(") then ("), None);
    assert_eq!(read_ping_address("ping: unknown host"), None);
    assert_eq!(description_url("192.168.4.204"), "http://192.168.4.204/discover.json");
    assert!(describes_tuner("{\"DeviceID\":\"1234\"}"));
    assert!(!describes_tuner("<html>404</html>"));
    let answers = vec![None, Some("a".to_string()), Some("b".to_string())];
    assert_eq!(first_found(&answers), Some("a".to_string()));
    assert_eq!(first_found(&vec![None, None]), None);
}

#[test]
fn xml_is_escaped() {
    assert_eq!(xml_escape("a & b <c> \"d\" 'e'"), "a &amp; b &lt;c&gt; &quot;d&quot; 'e'");
    assert_eq!(xml_escape("&amp;"), "&amp;amp;");
    assert_eq!(xml_escape(""), "");
}

#[test]
fn elements_are_read() {
    let xml = "<d><roomName>Kitchen</roomName><modelName></modelName><roomName>x</roomName>";
    assert_eq!(extract_xml_value(xml, "roomName"), Some("Kitchen".to_string()));
    assert_eq!(extract_xml_value(xml, "modelName"), Some(String::new()));
    assert_eq!(extract_xml_value(xml, "d"), None);
    assert_eq!(extract_xml_value(xml, "nothing"), None);
    // A closing tag before the opening one does not count.
    assert_eq!(extract_xml_value("</a><a>1</a>", "a"), Some("1".to_string()));
    // What was escaped comes back as it was written.
    let text = xml_escape("R&B <live>");
    assert_eq!(extract_xml_value(&format!("<t>{text}</t>"), "t"), Some(text));
}

#[test]
fn speakers_describe_themselves() {
    let xml = "<root><roomName>Kitchen</roomName><modelName>One SL</modelName></root>";
    let s = read_speaker("10.0.0.5", xml).expect("a speaker").clone();
    assert_eq!((s.ip.as_str(), s.name.as_str(), s.model.as_str()), ("10.0.0.5", "Kitchen", "One SL"));
    let s = read_speaker("10.0.0.5", "<roomName>Den</roomName>").expect("a speaker");
    assert_eq!(s.model, "");
    assert!(read_speaker("10.0.0.5", "<modelName>One</modelName>").is_none());
    assert!(read_speaker("10.0.0.5", "<roomName></roomName>").is_none());
    assert_eq!(
        radio_bridge::sonos::description_url("10.0.0.5"),
        "http://10.0.0.5:1400/xml/device_description.xml"
    );
}

#[test]
fn streams_are_handed_to_speakers() {
    assert_eq!(radio_url("http://h/live.m3u8"), "x-rincon-mp3radio://h/live.m3u8");
    assert_eq!(radio_url("https://h/http://x"), "x-rincon-mp3radio://h/x-rincon-mp3radio://x");
    let plain = didl("R&B", None);
    assert!(plain.starts_with("<DIDL-Lite xmlns:dc=\"http://purl.org/dc/elements/1.1/\" "));
    assert!(plain.ends_with(
        "restricted=\"true\"><dc:title>R&amp;B</dc:title><upnp:class>object.item.audioItem.audioBroadcast</upnp:class></item></DIDL-Lite>"
    ));
    assert!(didl("T", Some("http://a?b&c")).ends_with(
        "audioBroadcast</upnp:class><upnp:albumArtURI>http://a?b&amp;c</upnp:albumArtURI></item></DIDL-Lite>"
    ));
    let arguments = set_uri_arguments("http://h/a&b", "R&B", None);
    assert_eq!(
        arguments,
        format!(
            "<InstanceID>0</InstanceID><CurrentURI>x-rincon-mp3radio://h/a&amp;b</CurrentURI><CurrentURIMetaData>{}</CurrentURIMetaData>",
            xml_escape(&plain)
        )
    );
    assert_eq!(play_arguments(), "<InstanceID>0</InstanceID><Speed>1</Speed>");
}

#[test]
fn commands_are_wrapped() {
    assert_eq!(control_url("10.0.0.5"), "http://10.0.0.5:1400/MediaRenderer/AVTransport/Control");
    assert_eq!(action_header("Play"), "\"urn:schemas-upnp-org:service:AVTransport:1#Play\"");
    assert_eq!(
        envelope("Play", "<a/>"),
        "<?xml version=\"1.0\" encoding=\"utf-8\"?><s:Envelope xmlns:s=\"http://schemas.xmlsoap.org/soap/envelope/\" s:encodingStyle=\"http://schemas.xmlsoap.org/soap/encoding/\"><s:Body><u:Play xmlns:u=\"urn:schemas-upnp-org:service:AVTransport:1\"><a/></u:Play></s:Body></s:Envelope>"
    );
}
