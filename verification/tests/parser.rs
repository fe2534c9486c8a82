use ircd::parser::{
    escape_irc_tag_value, parse_irc_message, parse_irc_tags, unescape_irc_tag_value, IrcMessage,
    IrcTag,
};
use regex::Regex;
use std::collections::HashMap;

type TagTuple = (Option<String>, String, String, Option<String>, Option<String>);
type Flat = (Option<Vec<TagTuple>>, Option<String>, String, Vec<String>);

fn tag_tuple(t: &IrcTag) -> TagTuple {
    (
        t.client_prefix().clone(),
        t.key().clone(),
        t.key_name().clone(),
        t.value().clone(),
        t.vendor().clone(),
    )
}

fn flatten(m: &IrcMessage) -> Flat {
    let tags = m.tags().as_ref().map(|v| {
        let mut ts: Vec<TagTuple> = v.iter().map(tag_tuple).collect();
        ts.sort();
        ts
    });
    (tags, m.source().clone(), m.command().clone(), m.parameters().clone())
}

fn parse_flat(s: &str) -> Result<Flat, String> {
    parse_irc_message(s).map(|m| flatten(&m))
}

// The message grammar written as regular expressions, used to cross-check the parser.
struct Grammar {
    message: Regex,
    tags: Regex,
    key_name: Regex,
}

fn grammar() -> Grammar {
    Grammar {
        message: Regex::new(r"^ *(?:@(?<tags>[^ ]+) +)?(?::(?<source>[^ ]+) +)?(?<command>[^ ]+)(?: +(?<middle>[^: ][^ ]*(?: +[^: ][^ ]*)*))?(?: +:(?<trailing>.*))? *$").unwrap(),
        tags: Regex::new(r"(?:(?<key>(?<client_prefix>\+)?(?:(?<vendor>[^=;/]*)/)?(?<key_name>[^=;]*))(?:=(?<value>[^;]*))?)+").unwrap(),
        key_name: Regex::new(r"^[A-Za-z0-9-]+$").unwrap(),
    }
}

fn reference_tags(g: &Grammar, tags_str: &str) -> Option<Vec<TagTuple>> {
    let re = &g.tags;
    let name_re = &g.key_name;
    let mut tags: HashMap<String, TagTuple> = HashMap::new();
    for tag in re.captures_iter(tags_str) {
        let client_prefix = tag.name("client_prefix").map(|m| m.as_str().to_string());
        let key = tag.name("key").map(|m| m.as_str().to_string());
        let key_name = tag.name("key_name").map(|m| m.as_str().to_string());
        let value = tag
            .name("value")
            .map(|m| {
                let val = m.as_str();
                if val.is_empty() {
                    None
                } else {
                    Some(unescape_irc_tag_value(val))
                }
            })
            .flatten();
        if let Some(key) = key {
            if key_name.as_ref().map_or(true, |k| name_re.is_match(k)) {
                let vendor = tag.name("vendor").map(|m| m.as_str().to_string());
                tags.insert(
                    key.clone(),
                    (client_prefix, key, key_name.unwrap_or_default(), value, vendor),
                );
            }
        }
    }
    if tags.is_empty() {
        None
    } else {
        let mut v: Vec<TagTuple> = tags.into_values().collect();
        v.sort();
        Some(v)
    }
}

fn reference_message(g: &Grammar, message: &str) -> Result<Flat, String> {
    let caps = match g.message.captures(message) {
        Some(c) => c,
        None => return Err("Invalid message format".to_string()),
    };
    let tags = match caps.name("tags") {
        Some(m) => reference_tags(g, m.as_str()),
        None => None,
    };
    let source = caps.name("source").map(|m| m.as_str().to_string());
    let command = caps.name("command").unwrap().as_str().to_string();
    let mut parameters = vec![];
    if let Some(middle) = caps.name("middle") {
        for s in middle.as_str().split(' ') {
            if !s.is_empty() {
                parameters.push(s.to_string());
            }
        }
    }
    if let Some(trailing) = caps.name("trailing") {
        parameters.push(trailing.as_str().to_string());
    }
    Ok((tags, source, command, parameters))
}

fn strings(v: &[&str]) -> Vec<String> {
    v.iter().map(|s| s.to_string()).collect()
}

#[test]
fn parses_command_with_middle_and_trailing() {
    let m = parse_irc_message("PRIVMSG #chan :hello world").unwrap();
    assert_eq!(m.command(), "PRIVMSG");
    assert_eq!(m.source(), &None);
    assert!(m.tags().is_none());
    assert_eq!(m.parameters(), &strings(&["#chan", "hello world"]));
}

#[test]
fn parses_source() {
    let m = parse_irc_message(":nick!user@host JOIN #a   #b ").unwrap();
    assert_eq!(m.source(), &Some("nick!user@host".to_string()));
    assert_eq!(m.command(), "JOIN");
    assert_eq!(m.parameters(), &strings(&["#a", "#b"]));
}

#[test]
fn parses_tags_source_and_params() {
    let m = parse_irc_message("@id=123;+example.com/reply=a\\sb;bad_key=x :srv NOTICE me :hi there").unwrap();
    assert_eq!(m.source(), &Some("srv".to_string()));
    assert_eq!(m.command(), "NOTICE");
    assert_eq!(m.parameters(), &strings(&["me", "hi there"]));
    let tags = m.tags().as_ref().unwrap();
    assert_eq!(tags.len(), 2);
    let id = tags.iter().find(|t| t.key() == "id").unwrap();
    assert_eq!(id.value(), &Some("123".to_string()));
    assert_eq!(id.client_prefix(), &None);
    assert_eq!(id.vendor(), &None);
    let reply = tags.iter().find(|t| t.key() == "+example.com/reply").unwrap();
    assert_eq!(reply.client_prefix(), &Some("+".to_string()));
    assert_eq!(reply.vendor(), &Some("example.com".to_string()));
    assert_eq!(reply.key_name(), "reply");
    assert_eq!(reply.value(), &Some("a b".to_string()));
}

#[test]
fn empty_trailing_is_a_parameter() {
    let m = parse_irc_message("CMD a :").unwrap();
    assert_eq!(m.parameters(), &strings(&["a", ""]));
}

#[test]
fn trailing_keeps_spaces_and_colons() {
    let m = parse_irc_message("CMD :a :b  ").unwrap();
    assert_eq!(m.parameters(), &strings(&["a :b  "]));
}

#[test]
fn rejects_empty_and_blank_messages() {
    assert_eq!(parse_irc_message("").err(), Some("Invalid message format".to_string()));
    assert_eq!(parse_irc_message("    ").err(), Some("Invalid message format".to_string()));
}

#[test]
fn rejects_line_feed_in_trailing() {
    assert_eq!(parse_irc_message("CMD :a\nb").err(), Some("Invalid message format".to_string()));
    assert!(parse_irc_message("CMD a\nb").is_ok());
}

#[test]
fn tags_without_command_become_the_command() {
    let m = parse_irc_message("@a=b").unwrap();
    assert_eq!(m.command(), "@a=b");
    assert!(m.tags().is_none());
    let m = parse_irc_message("@a=b :src").unwrap();
    assert_eq!(m.command(), ":src");
    assert!(m.tags().is_some());
    assert_eq!(m.source(), &None);
}

#[test]
fn later_tag_replaces_earlier() {
    let tags = parse_irc_tags("a=1;b;a=2").unwrap();
    assert_eq!(tags.len(), 2);
    let a = tags.iter().find(|t| t.key() == "a").unwrap();
    assert_eq!(a.value(), &Some("2".to_string()));
    let b = tags.iter().find(|t| t.key() == "b").unwrap();
    assert_eq!(b.value(), &None);
}

#[test]
fn empty_value_is_no_value() {
    let tags = parse_irc_tags("a=").unwrap();
    assert_eq!(tags[0].value(), &None);
}

#[test]
fn invalid_tags_give_none() {
    assert!(parse_irc_tags("").is_none());
    assert!(parse_irc_tags(";;").is_none());
    assert!(parse_irc_tags("a_b=1;=x").is_none());
}

#[test]
fn escapes_tag_values() {
    assert_eq!(escape_irc_tag_value("a; b\\c\r\n"), "a\\:\\sb\\\\c\\r\\n");
    assert_eq!(escape_irc_tag_value("plain"), "plain");
}

#[test]
fn unescapes_tag_values() {
    assert_eq!(unescape_irc_tag_value("a\\:\\sb\\\\c\\r\\n"), "a; b\\c\r\n");
    assert_eq!(unescape_irc_tag_value("\\x"), "\\x");
    assert_eq!(unescape_irc_tag_value("ab\\"), "ab");
    assert_eq!(unescape_irc_tag_value(""), "");
}

#[test]
fn unescape_undoes_escape() {
    for s in ["", "a b;c", "\\\\;;\r\n x", "héllo wörld\\", "\\s\\:"] {
        assert_eq!(unescape_irc_tag_value(&escape_irc_tag_value(s)), s);
    }
}

struct Rng(u64);

impl Rng {
    fn next(&mut self) -> u64 {
        self.0 ^= self.0 << 13;
        self.0 ^= self.0 >> 7;
        self.0 ^= self.0 << 17;
        self.0
    }
}

#[test]
fn agrees_with_the_regular_expressions_on_messages() {
    let alphabet = [' ', ' ', ' ', '@', ':', 'a', 'B', '\n', '\r', ';', '=', '/', '+', '\\', 's', '-', 'é', '_'];
    let g = grammar();
    let mut rng = Rng(0x9e3779b97f4a7c15);
    for _ in 0..20000 {
        let len = (rng.next() % 14) as usize;
        let s: String = (0..len).map(|_| alphabet[(rng.next() % alphabet.len() as u64) as usize]).collect();
        assert_eq!(parse_flat(&s), reference_message(&g, &s), "input {:?}", s);
    }
}

#[test]
fn agrees_with_the_regular_expressions_on_tags() {
    let alphabet = ['a', 'Z', '1', '-', '_', '+', '/', '=', ';', '\\', 's', ':', '\n', 'é'];
    let g = grammar();
    let mut rng = Rng(0x1234_5678_9abc_def1);
    for _ in 0..20000 {
        let len = 1 + (rng.next() % 12) as usize;
        let s: String = (0..len).map(|_| alphabet[(rng.next() % alphabet.len() as u64) as usize]).collect();
        let ours = parse_irc_tags(&s).map(|v| {
            let mut ts: Vec<TagTuple> = v.iter().map(tag_tuple).collect();
            ts.sort();
            ts
        });
        assert_eq!(ours, reference_tags(&g, &s), "input {:?}", s);
    }
}

#[test]
fn composed_message_parses_back_to_its_parts() {
    let m = parse_irc_message("@a=1;+v/b :irc.example PRIVMSG #c x :hi there").unwrap();
    assert_eq!(m.source(), &Some("irc.example".to_string()));
    assert_eq!(m.command(), "PRIVMSG");
    assert_eq!(m.parameters(), &strings(&["#c", "x", "hi there"]));
    let tags = m.tags().as_ref().unwrap();
    assert_eq!(tags.len(), 2);
    let b = tags.iter().find(|t| t.key() == "+v/b").unwrap();
    assert_eq!(b.vendor(), &Some("v".to_string()));
    assert_eq!(b.key_name(), "b");
    assert_eq!(b.value(), &None);
}

#[test]
fn agrees_with_the_regular_expressions_on_structured_messages() {
    let g = grammar();
    let pieces = ["@", ":", " ", "  ", "a", "t=1", "x\\sy", ";", "\n", "\r", "é", "+v/k", "=", "CMD"];
    let mut rng = Rng(0x0f0f_1234_aaaa_5555);
    for _ in 0..15000 {
        let n = (rng.next() % 9) as usize;
        let s: String = (0..n).map(|_| pieces[(rng.next() % pieces.len() as u64) as usize]).collect();
        assert_eq!(parse_flat(&s), reference_message(&g, &s), "input {:?}", s);
    }
}

#[test]
fn escaped_tag_value_is_read_back() {
    for v in ["a; b", "\\", "x\r\ny", "plain"] {
        let tags = parse_irc_tags(&format!("my-key={}", escape_irc_tag_value(v))).unwrap();
        assert_eq!(tags.len(), 1);
        assert_eq!(tags[0].key(), "my-key");
        assert_eq!(tags[0].value(), &Some(v.to_string()));
    }
}

#[test]
fn tags_field_in_front_keeps_the_rest_of_the_parse() {
    for r in ["PING :x y", "  :src NOTICE a b", "CMD"] {
        let plain = parse_flat(r).unwrap();
        let tagged = parse_flat(&format!("@k=v;+x {}", r)).unwrap();
        let tags = parse_irc_tags("k=v;+x").map(|v| {
            let mut ts: Vec<TagTuple> = v.iter().map(tag_tuple).collect();
            ts.sort();
            ts
        });
        assert_eq!(tagged, (tags, plain.1, plain.2, plain.3));
    }
}
