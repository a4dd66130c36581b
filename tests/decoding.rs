use dict_unifier::dict::{join_fragments, Dict, Dictionary};
use dict_unifier::fields::{find_nul, parse_dict_data_xml};
use dict_unifier::index::{parse_index, IdxLayout};
use dict_unifier::info::parse_info;
use dict_unifier::text::{clean_xml, cover_dict_data_to_xml, html2text, render_paragraphs, render_plain_text};
use dict_unifier::DictError;

const MEDIA: &str = "<p class=\"error\"> DictUnifier: Media file is not supported. </p>";
const RESOURCE: &str = "<p class=\"error\"> DictUnifier: Resource file is not supported. </p>";

fn lines(v: &[&str]) -> Vec<String> {
    v.iter().map(|s| s.to_string()).collect()
}

fn unescape(s: &str) -> String {
    s.replace("&lt;", "<")
        .replace("&gt;", ">")
        .replace("&quot;", "\"")
        .replace("&#039;", "'")
        .replace("&amp;", "&")
}

#[test]
fn wordcount_only_descriptor() {
    let info = parse_info(&lines(&["wordcount=3"])).unwrap();
    assert_eq!(info.wordcount, 3);
    assert_eq!(info.version, "");
    assert_eq!(info.idxfilesize, 0);
    assert_eq!(info.bookname, "");
    assert_eq!(info.sametypesequence, "");
}

#[test]
fn descriptor_with_every_key() {
    let info = parse_info(&lines(&[
        "StarDict's dict ifo file",
        "version=2.4.2",
        "wordcount=-2",
        "idxfilesize=+1234",
        "bookname=a=b",
        "sametypesequence=tm",
        "author=someone",
        "=nokey",
        "novalue=",
    ]))
    .unwrap();
    assert_eq!(info.version, "2.4.2");
    assert_eq!(info.wordcount, -2);
    assert_eq!(info.idxfilesize, 1234);
    assert_eq!(info.bookname, "a=b");
    assert_eq!(info.sametypesequence, "tm");
}

#[test]
fn descriptor_bad_numbers() {
    assert_eq!(parse_info(&lines(&["wordcount=abc"])).unwrap_err(), DictError::Format);
    assert_eq!(parse_info(&lines(&["wordcount=2147483648"])).unwrap_err(), DictError::Format);
    assert_eq!(parse_info(&lines(&["wordcount=-2147483648"])).unwrap().wordcount, i32::MIN);
    assert_eq!(parse_info(&lines(&["idxfilesize=-1"])).unwrap_err(), DictError::Format);
    assert_eq!(
        parse_info(&lines(&["idxfilesize=18446744073709551615"])).unwrap().idxfilesize,
        u64::MAX
    );
    assert_eq!(parse_info(&lines(&["idxfilesize=18446744073709551616"])).unwrap_err(), DictError::Format);
}

#[test]
fn escape_round_trip() {
    let x = "a&b<c>\"d'e é";
    let e = clean_xml(x);
    assert_eq!(e, "a&amp;b&lt;c&gt;&quot;d&#039;e é");
    assert_eq!(unescape(&e), x);
}

#[test]
fn escape_is_not_idempotent() {
    for x in ["&", "<", ">", "\"", "'", "x & y"] {
        let once = clean_xml(x);
        assert_ne!(clean_xml(&once), once);
    }
    assert_eq!(clean_xml(&clean_xml("&")), "&amp;amp;");
}

#[test]
fn illegal_xml_characters_removed() {
    assert_eq!(clean_xml("\u{1}a\u{FFFE}b\u{1F600}\t\n"), "ab\u{1F600}\t\n");
}

#[test]
fn index_offsets_are_prefix_sums() {
    let sizes: [u16; 4] = [3, 0, 7, 65535];
    let mut buf: Vec<u8> = Vec::new();
    for (i, s) in sizes.iter().enumerate() {
        buf.extend_from_slice(format!("w{}", i).as_bytes());
        buf.push(0);
        buf.extend_from_slice(&s.to_be_bytes());
    }
    let idx = parse_index(&buf, 4, IdxLayout::Compact).unwrap();
    let offsets: Vec<u64> = idx.iter().map(|e| e.offset).collect();
    assert_eq!(offsets, vec![0, 3, 3, 10]);
    let got: Vec<u32> = idx.iter().map(|e| e.size).collect();
    assert_eq!(got, vec![3, 0, 7, 65535]);
    assert_eq!(idx[2].index, "w2");
    assert_eq!(idx[3].id, 3);
}

#[test]
fn index_wide_layout() {
    let mut buf: Vec<u8> = Vec::new();
    buf.extend_from_slice(b"cat\0");
    buf.extend_from_slice(&[0, 0, 0, 0, 0, 0, 1, 2]);
    buf.extend_from_slice(b"dog\0");
    buf.extend_from_slice(&[0, 0, 1, 2, 0, 0, 0, 4]);
    let idx = parse_index(&buf, 2, IdxLayout::Wide).unwrap();
    assert_eq!(idx[0].size, 258);
    assert_eq!(idx[1].offset, 258);
    assert_eq!(idx[1].size, 4);
    assert_eq!(idx[1].index, "dog");
}

#[test]
fn truncated_index() {
    let mut buf: Vec<u8> = Vec::new();
    for w in ["one", "two"] {
        buf.extend_from_slice(w.as_bytes());
        buf.extend_from_slice(&[0, 0, 1]);
    }
    assert_eq!(parse_index(&buf, 5, IdxLayout::Compact).unwrap_err(), DictError::Truncated);
    assert_eq!(parse_index(&buf, 2, IdxLayout::Compact).unwrap().len(), 2);
    assert_eq!(parse_index(b"abc", 1, IdxLayout::Compact).unwrap_err(), DictError::Truncated);
    assert_eq!(parse_index(b"abc\0\0", 1, IdxLayout::Compact).unwrap_err(), DictError::Truncated);
}

#[test]
fn index_headword_not_utf8() {
    assert_eq!(parse_index(b"\xff\0\0\x01", 1, IdxLayout::Compact).unwrap_err(), DictError::Format);
}

#[test]
fn uniform_plain_text() {
    assert_eq!(parse_dict_data_xml(b"hello\0", "m").unwrap(), vec!["<p class=\"plaintext\">hello</p>"]);
}

#[test]
fn uniform_html() {
    assert_eq!(
        parse_dict_data_xml(b"<p>Hi <b>there</b></p>\0", "h").unwrap(),
        vec!["<p class=\"plaintext\">Hi there</p>"]
    );
}

#[test]
fn media_is_placeholder() {
    assert_eq!(parse_dict_data_xml(b"\x01\x02\x03\xff", "W").unwrap(), vec![MEDIA]);
    assert_eq!(parse_dict_data_xml(b"", "P").unwrap(), Vec::<String>::new());
    // inline: type byte, four-byte size, payload, then a text field
    let block = b"X\0\0\0\x02\xfe\xffmok\0";
    assert_eq!(
        parse_dict_data_xml(block, "").unwrap(),
        vec![MEDIA.to_string(), "<p class=\"plaintext\">ok</p>".to_string()]
    );
    // sized media field in a sequence, then text
    assert_eq!(
        parse_dict_data_xml(b"\0\0\0\x01zword", "Wm").unwrap(),
        vec![MEDIA.to_string(), "<p class=\"plaintext\">word</p>".to_string()]
    );
    // a size that is missing or reaches past the block: the field takes the rest
    assert_eq!(parse_dict_data_xml(b"W\0\0\0\x09ab", "").unwrap(), vec![MEDIA]);
    assert_eq!(parse_dict_data_xml(b"W", "").unwrap(), vec![MEDIA]);
    assert_eq!(parse_dict_data_xml(b"P\x01", "").unwrap(), vec![MEDIA]);
    assert_eq!(parse_dict_data_xml(b"\0\x01", "Xm").unwrap(), vec![MEDIA]);
    assert_eq!(parse_dict_data_xml(b"\xff\xff\xff\xff\xffz", "Wm").unwrap(), vec![MEDIA]);
}

#[test]
fn inline_fields_and_resources() {
    let block = b"mhi\0g<b>\0rimg.png\0";
    assert_eq!(
        parse_dict_data_xml(block, "").unwrap(),
        vec![
            "<p class=\"plaintext\">hi</p>".to_string(),
            "<pre><b></pre>".to_string(),
            RESOURCE.to_string()
        ]
    );
    assert_eq!(parse_dict_data_xml(b"", "").unwrap(), Vec::<String>::new());
    assert_eq!(parse_dict_data_xml(b"\xc3m", "").unwrap_err(), DictError::Format);
    assert_eq!(parse_dict_data_xml(b"m\xff\0", "").unwrap_err(), DictError::Format);
}

#[test]
fn sequence_of_two_text_fields() {
    assert_eq!(
        parse_dict_data_xml(b"/k/\0 line one \n\n line two", "tm").unwrap(),
        vec![
            "<p class=\"plaintext\">/k/</p>".to_string(),
            "<p class=\"plaintext\">line one</p>\n<p class=\"plaintext\">line two</p>".to_string()
        ]
    );
}

#[test]
fn field_rendering_by_type() {
    assert_eq!(cover_dict_data_to_xml("<i>a</i>", 'g'), "<pre><i>a</i></pre>");
    assert_eq!(cover_dict_data_to_xml("<k>a</k>", 'x'), "<pre><k>a</k></pre>");
    assert_eq!(cover_dict_data_to_xml("a < b", 'm'), "<p class=\"plaintext\">a &lt; b</p>");
    assert_eq!(
        cover_dict_data_to_xml("<style>p{}</style><div>one</div><script>x()</script>two", 'h'),
        "<p class=\"plaintext\">one</p>\n<p class=\"plaintext\">two</p>"
    );
}

#[test]
fn html_to_text() {
    assert_eq!(html2text("<p>Hi <b>there</b></p>"), "Hi there\n");
    assert_eq!(html2text("<STYLE>x</STYLE>a<br/>b"), "a\nb");
    assert_eq!(html2text("<ul><li class=\"x\">one</li><li>two</li></ul>"), "  *  one\n  *  two\n\n");
    assert_eq!(html2text("<div>a</div>b<br>c"), "a\nb\nc");
    assert_eq!(html2text("a<br \t/>b<br x>c</pre>d"), "a\nbcd");
    assert_eq!(html2text("a < b > c <>x<li"), "a  c <>x<li");
    assert_eq!(html2text("<li\n>x<script type=a>y</SCRIPT>z"), "  *  xz");
    assert_eq!(html2text("plain"), "plain");
}

#[test]
fn paragraphs_trim_and_skip_blank_lines() {
    assert_eq!(render_paragraphs(""), "");
    assert_eq!(render_paragraphs(" \t\n\u{3000}\n"), "");
    assert_eq!(
        render_paragraphs("  a \r\n\nb"),
        "<p class=\"plaintext\">a</p>\n<p class=\"plaintext\">b</p>"
    );
    assert_eq!(render_plain_text("x\"y"), "<p class=\"plaintext\">x&quot;y</p>");
    assert_eq!(
        cover_dict_data_to_xml("<ul><li>one</li><li>two</li></ul>", 'h'),
        "<p class=\"plaintext\">*  one</p>\n<p class=\"plaintext\">*  two</p>"
    );
}

#[test]
fn nul_search() {
    assert_eq!(find_nul(b"ab\0c", 0), 2);
    assert_eq!(find_nul(b"ab\0c", 3), 4);
}

#[test]
fn join_with_newlines() {
    assert_eq!(join_fragments(&vec![]), "");
    assert_eq!(join_fragments(&vec!["a".to_string(), "b".to_string()]), "a\nb");
}

fn load(layout: IdxLayout, idx: &[u8], data: &[u8], info: &[&str]) -> Result<Dictionary, DictError> {
    let mut d = Dictionary::new("a.ifo".to_string(), "a.idx".to_string(), "a.dict".to_string());
    d.load_info(&lines(info))?;
    d.load_idx(idx, layout)?;
    d.load_dict(data)?;
    Ok(d)
}

#[test]
fn end_to_end_single_entry() {
    let d = load(IdxLayout::Compact, b"cat\0\0\x05", b"meow\0", &["wordcount=1", "sametypesequence=m"]).unwrap();
    assert_eq!(d.data.len(), 1);
    assert_eq!(d.data[0].id, 0);
    assert_eq!(d.data[0].index, "cat");
    assert_eq!(d.data[0].xml, "<p class=\"plaintext\">meow</p>");
    let w = load(IdxLayout::Wide, b"cat\0\0\0\0\0\0\0\0\x05", b"meow\0", &["wordcount=1", "sametypesequence=m"]).unwrap();
    assert_eq!(w.data[0].xml, "<p class=\"plaintext\">meow</p>");
}

#[test]
fn end_to_end_two_entries_inline() {
    let idx = b"a\0\0\x05b\0\0\x05";
    let data = b"mone\0gtwo\0";
    let d = load(IdxLayout::Compact, idx, data, &["wordcount=2"]).unwrap();
    assert_eq!(d.data[0].xml, "<p class=\"plaintext\">one</p>");
    assert_eq!(d.data[1].xml, "<pre>two</pre>");
    assert_eq!(d.data[1].offset, 5);
    assert_eq!(d.idx.len(), 2);
}

#[test]
fn end_to_end_errors() {
    let e = load(IdxLayout::Compact, b"cat\0\0\x09", b"meow\0", &["wordcount=1", "sametypesequence=m"]);
    assert_eq!(e.unwrap_err(), DictError::Truncated);
    let e = load(IdxLayout::Compact, b"cat\0\0\x05", b"me\xffw\0", &["wordcount=1", "sametypesequence=m"]);
    assert_eq!(e.unwrap_err(), DictError::Format);
    let e = load(IdxLayout::Compact, b"cat\0\0\x05", b"meow\0", &["wordcount=2"]);
    assert_eq!(e.unwrap_err(), DictError::Truncated);
    let d = load(IdxLayout::Compact, b"", b"", &["wordcount=-4"]).unwrap();
    assert_eq!(d.data.len(), 0);
}

#[test]
fn error_messages() {
    assert_eq!(DictError::Io.message(), "file could not be read");
    assert_eq!(DictError::Truncated.message(), "dictionary data is truncated");
    assert_eq!(DictError::Format.message(), "malformed dictionary data");
}

#[test]
fn entry_constructor() {
    let d = Dict::new(7, "w".to_string(), 3, 2, "x".to_string());
    assert_eq!((d.id, d.offset, d.size), (7, 3, 2));
}
