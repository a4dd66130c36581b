use dict_unifier::dict::Dict;
use dict_unifier::template::{document_xml, entry_xml, generate_css, generate_plist};

#[test]
fn plist_names_the_dictionary() {
    let p = generate_plist("Oxford", "oald");
    assert!(p.starts_with("\n<?xml version=\"1.0\" encoding=\"UTF-8\"?>"));
    assert!(p.contains("<key>CFBundleDisplayName</key>\n    <string>Oxford</string>"));
    assert!(p.contains("<string>com.apple.dictionary.oald</string>"));
    assert!(p.contains("<key>CFBundleName</key>\n    <string>Oxford</string>"));
    assert!(p.ends_with("</plist>\n  "));
}

#[test]
fn css_is_the_style_sheet() {
    let c = generate_css();
    assert!(c.starts_with("@charset \"UTF-8\";"));
    assert!(c.contains("content: \"/\";"));
    assert!(c.ends_with("}\n}"));
}

#[test]
fn entry_element() {
    let d = Dict::new(12, "a<b".to_string(), 0, 1, "<p class=\"plaintext\">x</p>".to_string());
    assert_eq!(
        entry_xml(&d),
        "<d:entry id=\"12\" d:title=\"a&lt;b\">\n<d:index d:value=\"a&lt;b\"/>\n<h1>a&lt;b</h1>\n<div>\n<p class=\"plaintext\">x</p>\n</div>\n</d:entry>"
    );
}

#[test]
fn document_of_entries() {
    let a = Dict::new(0, "a".to_string(), 0, 1, "1".to_string());
    let b = Dict::new(1, "b".to_string(), 1, 1, "2".to_string());
    let doc = document_xml(&vec![a, b]);
    assert!(doc.starts_with("<?xml version=\"1.0\" encoding=\"UTF-8\"?>\n<d:dictionary xmlns=\"http://www.w3.org/1999/xhtml\""));
    assert!(doc.contains("</d:entry>\n<d:entry id=\"1\""));
    assert!(doc.ends_with("</d:entry>\n</d:dictionary>"));
    assert_eq!(document_xml(&vec![]), format!("{}\n</d:dictionary>", dict_unifier::template::DOCUMENT_OPEN));
}
