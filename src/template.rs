//! The property list, style sheet and XML document of a built dictionary.
use vstd::prelude::*;
use vstd::string::StringExecFns;
use crate::dict::{Dict, DictView, dict_views};
use crate::text::{cleaned, clean_xml, join_lines, push_char};

verus! {

pub const PLIST_HEAD: &'static str = "
<?xml version=\"1.0\" encoding=\"UTF-8\"?>
<!DOCTYPE plist PUBLIC \"-//Apple//DTD PLIST 1.0//EN\" \"http://www.apple.com/DTDs/PropertyList-1.0.dtd\">
<plist version=\"1.0\">
<dict>
    <key>CFBundleDevelopmentRegion</key>
    <string>zh-Hans</string>
    <key>CFBundleDisplayName</key>
    <string>";

pub const PLIST_AFTER_NAME: &'static str = "</string>
    <key>CFBundleIdentifier</key>
    <string>com.apple.dictionary.";

pub const PLIST_AFTER_ID: &'static str = "</string>
    <key>CFBundleName</key>
    <string>";

pub const PLIST_TAIL: &'static str = "</string>
    <key>CFBundleShortVersionString</key>
    <string>1.0</string>
    <key>DCSDictionaryCopyright</key>
    <string>GNU General Public License</string>
    <key>DCSDictionaryManufacturerName</key>
    <string>stardict</string>
    <key>DCSDictionaryUseSystemAppearance</key>
    <true/>
</dict>
</plist>
  ";

pub const STYLE_SHEET: &'static str = "@charset \"UTF-8\";
@namespace d url(http://www.apple.com/DTDs/DictionaryService-1.0.rng);

d|entry {
}

h1 {
    font-size: 150%;
}

html.apple_client-panel h1 {
    font-size: 100%;
}

h3 {
    font-size: 100%;
}

pre {
    /* overflow: auto; */
    white-space: pre-wrap;
}

html.apple_client-panel pre {
    white-space: normal;
}

span.column {
  display: block;
  border: solid 2px #c0c0c0;
  margin-left: 2em;
  margin-right: 2em;
  margin-top: 0.5em;
  margin-bottom: 0.5em;
  padding: 0.5em;
}

div.y:before {
    content: \"/\";
}

div.y:after {
    content: \"/\";
}

div.y {
    margin-top: 0.5em;
    margin-bottom: 0.5em;
    font-size: 120%;
    color: #333;
}

@media (prefers-dark-interface)
{
    body {
        color: white;
    }
}";

/// The bundle property list of a dictionary named `dict_name` whose
/// identifier ends in `dict_id`.
pub fn generate_plist(dict_name: &str, dict_id: &str) -> (r: String)
    ensures
        r@ == PLIST_HEAD@ + dict_name@ + PLIST_AFTER_NAME@ + dict_id@ + PLIST_AFTER_ID@ + dict_name@
            + PLIST_TAIL@,
{
    let mut out = String::from_str(PLIST_HEAD);
    out.append(dict_name);
    out.append(PLIST_AFTER_NAME);
    out.append(dict_id);
    out.append(PLIST_AFTER_ID);
    out.append(dict_name);
    out.append(PLIST_TAIL);
    out
}

/// The style sheet of a built dictionary.
pub fn generate_css() -> (r: String)
    ensures
        r@ == STYLE_SHEET@,
{
    String::from_str(STYLE_SHEET)
}

pub const ENTRY_OPEN: &'static str = "<d:entry id=\"";

pub const ENTRY_TITLE: &'static str = "\" d:title=\"";

pub const ENTRY_INDEX: &'static str = "\">\n<d:index d:value=\"";

pub const ENTRY_HEADING: &'static str = "\"/>\n<h1>";

pub const ENTRY_BODY: &'static str = "</h1>\n<div>\n";

pub const ENTRY_CLOSE: &'static str = "\n</div>\n</d:entry>";

pub const DOCUMENT_OPEN: &'static str = "<?xml version=\"1.0\" encoding=\"UTF-8\"?>\n<d:dictionary xmlns=\"http://www.w3.org/1999/xhtml\" xmlns:d=\"http://www.apple.com/DTDs/DictionaryService-1.0.rng\">\n";

pub const DOCUMENT_CLOSE: &'static str = "\n</d:dictionary>";

pub open spec fn digit_char(d: int) -> char {
    if d == 0 { '0' } else if d == 1 { '1' } else if d == 2 { '2' } else if d == 3 { '3' }
    else if d == 4 { '4' } else if d == 5 { '5' } else if d == 6 { '6' } else if d == 7 { '7' }
    else if d == 8 { '8' } else { '9' }
}

/// `n` in decimal digits, without leading zeros.
pub open spec fn decimal_of(n: nat) -> Seq<char>
    decreases n,
{
    if n < 10 {
        seq![digit_char(n as int)]
    } else {
        decimal_of(n / 10).push(digit_char((n % 10) as int))
    }
}

fn digit(d: usize) -> (r: char)
    requires
        d < 10,
    ensures
        r == digit_char(d as int),
{
    if d == 0 { '0' } else if d == 1 { '1' } else if d == 2 { '2' } else if d == 3 { '3' }
    else if d == 4 { '4' } else if d == 5 { '5' } else if d == 6 { '6' } else if d == 7 { '7' }
    else if d == 8 { '8' } else { '9' }
}

/// Appends the decimal digits of `n` to `out`.
fn push_decimal(out: &mut String, n: usize)
    ensures
        final(out)@ == old(out)@ + decimal_of(n as nat),
    decreases n,
{
    if n >= 10 {
        push_decimal(out, n / 10);
    }
    push_char(out, digit(n % 10));
    assert(final(out)@ =~= old(out)@ + decimal_of(n as nat));
}

/// The XML element of the entry `d`: its id, its escaped headword as title,
/// index value and heading, and its body.
pub open spec fn entry_text(d: DictView) -> Seq<char> {
    ENTRY_OPEN@ + decimal_of(d.id as nat) + ENTRY_TITLE@ + cleaned(d.word) + ENTRY_INDEX@ + cleaned(
        d.word,
    ) + ENTRY_HEADING@ + cleaned(d.word) + ENTRY_BODY@ + d.xml + ENTRY_CLOSE@
}

/// The XML element of the entry `d`.
pub fn entry_xml(d: &Dict) -> (r: String)
    ensures
        r@ == entry_text(d@),
{
    let title = clean_xml(d.index.as_str());
    let mut out = String::from_str(ENTRY_OPEN);
    push_decimal(&mut out, d.id);
    out.append(ENTRY_TITLE);
    out.append(title.as_str());
    out.append(ENTRY_INDEX);
    out.append(title.as_str());
    out.append(ENTRY_HEADING);
    out.append(title.as_str());
    out.append(ENTRY_BODY);
    out.append(d.xml.as_str());
    out.append(ENTRY_CLOSE);
    out
}

/// The dictionary document that holds the elements of `entries`, one per line.
pub fn document_xml(entries: &Vec<Dict>) -> (r: String)
    ensures
        r@ == DOCUMENT_OPEN@ + join_lines(dict_views(entries@).map_values(|d: DictView| entry_text(d)))
            + DOCUMENT_CLOSE@,
{
    let ghost es = dict_views(entries@).map_values(|d: DictView| entry_text(d));
    let mut body = String::new();
    let mut k: usize = 0;
    assert(es.take(0) =~= seq![]);
    while k < entries.len()
        invariant
            k <= entries@.len(),
            es == dict_views(entries@).map_values(|d: DictView| entry_text(d)),
            body@ == join_lines(es.take(k as int)),
        decreases entries@.len() - k,
    {
        if k > 0 {
            push_char(&mut body, '\n');
        }
        let e = entry_xml(&entries[k]);
        body.append(e.as_str());
        assert(es.take(k + 1).drop_last() =~= es.take(k as int));
        k += 1;
    }
    assert(es.take(k as int) =~= es);
    let mut out = String::from_str(DOCUMENT_OPEN);
    out.append(body.as_str());
    out.append(DOCUMENT_CLOSE);
    out
}

} // verus!
