//! Text sanitizing: XML escaping, removal of characters XML cannot hold,
//! markup stripping and the rendering of text as plain paragraphs.
use vstd::prelude::*;
use vstd::string::StringExecFns;

verus! {

/// Whether `c` lies in the XML 1.0 character ranges: tab, newline, carriage
/// return, U+0020..U+D7FF, U+E000..U+FFFD and the astral planes.
pub open spec fn xml_char(c: char) -> bool {
    let u = c as u32;
    u == 0x09 || u == 0x0A || u == 0x0D || (0x20 <= u && u <= 0xD7FF) || (0xE000 <= u && u
        <= 0xFFFD) || 0x10000 <= u
}

/// `s` without the characters that XML cannot hold.
pub open spec fn xml_legal(s: Seq<char>) -> Seq<char> {
    s.filter(|c: char| xml_char(c))
}

/// The entity that stands for `c` in XML text, or `c` itself.
pub open spec fn escape_char(c: char) -> Seq<char> {
    if c == '&' {
        seq!['&', 'a', 'm', 'p', ';']
    } else if c == '<' {
        seq!['&', 'l', 't', ';']
    } else if c == '>' {
        seq!['&', 'g', 't', ';']
    } else if c == '"' {
        seq!['&', 'q', 'u', 'o', 't', ';']
    } else if c == '\'' {
        seq!['&', '#', '0', '3', '9', ';']
    } else {
        seq![c]
    }
}

/// Every character of `s` replaced by its entity.
pub open spec fn escaped(s: Seq<char>) -> Seq<char>
    decreases s.len(),
{
    if s.len() == 0 {
        seq![]
    } else {
        escaped(s.drop_last()) + escape_char(s.last())
    }
}

/// What `clean_xml` makes of `s`: illegal characters removed, the rest escaped.
pub open spec fn cleaned(s: Seq<char>) -> Seq<char> {
    escaped(xml_legal(s))
}

/// The characters of `s`, in order.
pub(crate) fn chars_of(s: &str) -> (r: Vec<char>)
    ensures
        r@ == s@,
{
    let mut out: Vec<char> = Vec::new();
    for c in it: s.chars()
        invariant
            it.seq() == s@,
            out@ == it.seq().take(it.index() as int),
    {
        out.push(c);
        assert(out@ =~= it.seq().take(it.index() + 1));
    }
    assert(out@ =~= s@);
    out
}

/// Relies on `String::push`: `c` is appended.
#[verifier::external_body]
pub(crate) fn push_char(s: &mut String, c: char)
    ensures
        final(s)@ == old(s)@.push(c),
{
    s.push(c)
}

/// Relies on `regex::Regex::replace_all` with a negated character class and an
/// empty replacement: each character outside the XML ranges is removed, the
/// others stay in order.
#[verifier::external_body]
fn drop_illegal_xml_chars(s: &str) -> (r: String)
    ensures
        r@ == xml_legal(s@),
{
    let re = regex::Regex::new(r"[^\x09\x0A\x0D\x20-\x{D7FF}\x{E000}-\x{FFFD}\x{10000}-\x{10FFFF}]");
    re.unwrap().replace_all(s, "").into_owned()
}

fn push_escaped(out: &mut String, c: char)
    ensures
        final(out)@ == old(out)@ + escape_char(c),
{
    if c == '&' {
        push_char(out, '&'); push_char(out, 'a'); push_char(out, 'm'); push_char(out, 'p');
        push_char(out, ';');
    } else if c == '<' {
        push_char(out, '&'); push_char(out, 'l'); push_char(out, 't'); push_char(out, ';');
    } else if c == '>' {
        push_char(out, '&'); push_char(out, 'g'); push_char(out, 't'); push_char(out, ';');
    } else if c == '"' {
        push_char(out, '&'); push_char(out, 'q'); push_char(out, 'u'); push_char(out, 'o');
        push_char(out, 't'); push_char(out, ';');
    } else if c == '\'' {
        push_char(out, '&'); push_char(out, '#'); push_char(out, '0'); push_char(out, '3');
        push_char(out, '9'); push_char(out, ';');
    } else {
        push_char(out, c);
    }
    assert(final(out)@ =~= old(out)@ + escape_char(c));
}

/// Makes `text` safe inside XML: removes the characters outside the XML 1.0
/// ranges, then writes `&`, `<`, `>`, `"` and `'` as entities.
pub fn clean_xml(text: &str) -> (r: String)
    ensures
        r@ == cleaned(text@),
{
    let legal = drop_illegal_xml_chars(text);
    let cs = chars_of(legal.as_str());
    let mut out = String::new();
    let mut i: usize = 0;
    while i < cs.len()
        invariant
            i <= cs.len(),
            cs@ == xml_legal(text@),
            out@ == escaped(cs@.take(i as int)),
        decreases cs.len() - i,
    {
        push_escaped(&mut out, cs[i]);
        assert(cs@.take(i + 1).drop_last() =~= cs@.take(i as int));
        i += 1;
    }
    assert(cs@.take(i as int) =~= cs@);
    out
}

/// Whether `c` is white space as `char::is_whitespace` counts it (the Unicode
/// `White_Space` property).
pub open spec fn white(c: char) -> bool {
    let u = c as u32;
    (0x09 <= u && u <= 0x0D) || u == 0x20 || u == 0x85 || u == 0xA0 || u == 0x1680 || (0x2000
        <= u && u <= 0x200A) || u == 0x2028 || u == 0x2029 || u == 0x202F || u == 0x205F || u
        == 0x3000
}

pub open spec fn trim_start(s: Seq<char>) -> Seq<char>
    decreases s.len(),
{
    if s.len() > 0 && white(s[0]) {
        trim_start(s.drop_first())
    } else {
        s
    }
}

pub open spec fn trim_end(s: Seq<char>) -> Seq<char>
    decreases s.len(),
{
    if s.len() > 0 && white(s.last()) {
        trim_end(s.drop_last())
    } else {
        s
    }
}

/// `s` without white space at either end.
pub open spec fn trimmed(s: Seq<char>) -> Seq<char> {
    trim_end(trim_start(s))
}

/// The lines of `s`, split at each newline; the newlines themselves are dropped.
pub open spec fn split_lines(s: Seq<char>) -> Seq<Seq<char>>
    decreases s.len(),
{
    if s.len() == 0 {
        seq![seq![]]
    } else {
        let p = split_lines(s.drop_last());
        if s.last() == '\n' {
            p.push(seq![])
        } else {
            p.update(p.len() - 1, p.last().push(s.last()))
        }
    }
}

pub open spec fn para_open() -> Seq<char> {
    seq!['<', 'p', ' ', 'c', 'l', 'a', 's', 's', '=', '"', 'p', 'l', 'a', 'i', 'n', 't', 'e', 'x', 't', '"', '>']
}

pub open spec fn para_close() -> Seq<char> {
    seq!['<', '/', 'p', '>']
}

/// `t` as a plain-text paragraph.
pub open spec fn para(t: Seq<char>) -> Seq<char> {
    para_open() + t + para_close()
}

/// One paragraph for each line that is not blank once trimmed, in order.
pub open spec fn paras(lines: Seq<Seq<char>>) -> Seq<Seq<char>>
    decreases lines.len(),
{
    if lines.len() == 0 {
        seq![]
    } else {
        let r = paras(lines.drop_last());
        let t = trimmed(lines.last());
        if t.len() > 0 {
            r.push(para(t))
        } else {
            r
        }
    }
}

/// The pieces of `ps` joined by newlines.
pub open spec fn join_lines(ps: Seq<Seq<char>>) -> Seq<char>
    decreases ps.len(),
{
    if ps.len() == 0 {
        seq![]
    } else if ps.len() == 1 {
        ps[0]
    } else {
        join_lines(ps.drop_last()) + seq!['\n'] + ps.last()
    }
}

/// What `render_paragraphs` makes of `s`.
pub open spec fn paragraphs(s: Seq<char>) -> Seq<char> {
    join_lines(paras(split_lines(s)))
}

fn is_white(c: char) -> (r: bool)
    ensures
        r == white(c),
{
    let u = c as u32;
    (0x09 <= u && u <= 0x0D) || u == 0x20 || u == 0x85 || u == 0xA0 || u == 0x1680 || (0x2000
        <= u && u <= 0x200A) || u == 0x2028 || u == 0x2029 || u == 0x202F || u == 0x205F || u
        == 0x3000
}

/// The bounds of `line` once white space is cut from both ends.
fn trim_bounds(line: &Vec<char>) -> (r: (usize, usize))
    ensures
        r.0 <= r.1 <= line@.len(),
        line@.subrange(r.0 as int, r.1 as int) == trimmed(line@),
{
    let n = line.len();
    let mut i: usize = 0;
    assert(line@.subrange(0, n as int) =~= line@);
    while i < n && is_white(line[i])
        invariant
            i <= n == line@.len(),
            trim_start(line@) == trim_start(line@.subrange(i as int, n as int)),
        decreases n - i,
    {
        assert(line@.subrange(i as int, n as int).drop_first() =~= line@.subrange(
            i + 1,
            n as int,
        ));
        i += 1;
    }
    assert(trim_start(line@) == line@.subrange(i as int, n as int));
    let mut j: usize = n;
    while j > i && is_white(line[j - 1])
        invariant
            i <= j <= n == line@.len(),
            trim_start(line@) == line@.subrange(i as int, n as int),
            trimmed(line@) == trim_end(line@.subrange(i as int, j as int)),
        decreases j,
    {
        assert(line@.subrange(i as int, j as int).drop_last() =~= line@.subrange(
            i as int,
            j - 1,
        ));
        j -= 1;
    }
    (i, j)
}

/// Appends the paragraph for `line` to `out` where the trimmed line is not empty.
fn push_paragraph(out: &mut String, any: &mut bool, line: &Vec<char>, Ghost(done): Ghost<
    Seq<Seq<char>>,
>)
    requires
        old(out)@ == join_lines(paras(done)),
        *old(any) == (paras(done).len() > 0),
    ensures
        final(out)@ == join_lines(paras(done.push(line@))),
        *final(any) == (paras(done.push(line@)).len() > 0),
{
    let (a, b) = trim_bounds(line);
    assert(done.push(line@).drop_last() =~= done);
    if a < b {
        if *any {
            push_char(out, '\n');
        }
        out.append("<p class=\"plaintext\">");
        proof {
            reveal_strlit("<p class=\"plaintext\">");
            assert("<p class=\"plaintext\">"@ =~= para_open());
        }
        let ghost start = out@;
        let mut k: usize = a;
        while k < b
            invariant
                a <= k <= b <= line@.len(),
                out@ == start + line@.subrange(a as int, k as int),
            decreases b - k,
        {
            push_char(out, line[k]);
            assert(out@ =~= start + line@.subrange(a as int, k + 1));
            k += 1;
        }
        out.append("</p>");
        proof {
            reveal_strlit("</p>");
            assert("</p>"@ =~= para_close());
            let p = paras(done.push(line@));
            assert(p.last() == para(trimmed(line@)));
            assert(p.drop_last() =~= paras(done));
        }
        *any = true;
        assert(out@ =~= join_lines(paras(done.push(line@))));
    }
}

/// Renders `text` as plain paragraphs: splits it at newlines, trims each line,
/// drops the lines left empty, wraps each other in `<p class="plaintext">`
/// and joins them with newlines.
pub fn render_paragraphs(text: &str) -> (r: String)
    ensures
        r@ == paragraphs(text@),
{
    let cs = chars_of(text);
    let mut out = String::new();
    let mut any = false;
    let mut line: Vec<char> = Vec::new();
    let ghost mut done: Seq<Seq<char>> = seq![];
    let mut i: usize = 0;
    while i < cs.len()
        invariant
            i <= cs.len(),
            cs@ == text@,
            split_lines(cs@.take(i as int)) == done.push(line@),
            out@ == join_lines(paras(done)),
            any == (paras(done).len() > 0),
        decreases cs.len() - i,
    {
        let c = cs[i];
        assert(cs@.take(i + 1).drop_last() =~= cs@.take(i as int));
        if c == '\n' {
            push_paragraph(&mut out, &mut any, &line, Ghost(done));
            proof {
                done = done.push(line@);
            }
            line = Vec::new();
            assert(split_lines(cs@.take(i + 1)) =~= done.push(line@));
        } else {
            line.push(c);
            assert(split_lines(cs@.take(i + 1)) =~= done.push(line@));
        }
        i += 1;
    }
    push_paragraph(&mut out, &mut any, &line, Ghost(done));
    assert(cs@.take(i as int) =~= cs@);
    out
}

/// What `regex` leaves of `s` once style and script blocks are removed.
pub uninterp spec fn blocks_removed(s: Seq<char>) -> Seq<char>;

/// The index of the first `c` in `s` at or after `k`, or `s.len()`.
pub open spec fn find_char(s: Seq<char>, c: char, k: int) -> int
    decreases s.len() - k,
{
    if k < 0 || k >= s.len() {
        s.len() as int
    } else if s[k] == c {
        k
    } else {
        find_char(s, c, k + 1)
    }
}

/// The index of the first character of `s` at or after `k` that is not white
/// space, or `s.len()`.
pub open spec fn skip_white(s: Seq<char>, k: int) -> int
    decreases s.len() - k,
{
    if k < 0 || k >= s.len() {
        s.len() as int
    } else if white(s[k]) {
        skip_white(s, k + 1)
    } else {
        k
    }
}

pub open spec fn list_marker() -> Seq<char> {
    seq![' ', ' ', '*', ' ', ' ']
}

/// `s` scanned from the left with each `<li` up to the next `>` replaced by
/// `  *  ` (what the pattern `<li([\s\S]*?)>` matches).
pub open spec fn list_items_marked(s: Seq<char>) -> Seq<char>
    decreases s.len(),
{
    if s.len() == 0 {
        seq![]
    } else {
        let j = find_char(s, '>', 3);
        if s.len() >= 3 && s[0] == '<' && s[1] == 'l' && s[2] == 'i' && 3 <= j < s.len() {
            list_marker() + list_items_marked(s.skip(j + 1))
        } else {
            seq![s[0]] + list_items_marked(s.drop_first())
        }
    }
}

/// The length of the line-breaking tag that `s` begins with, or 0: `</div>`,
/// `</li>`, `</ul>`, `</p>`, or `<br`, white space, an optional `/` and `>`
/// (what the pattern `</div>|</li>|</ul>|</p>|<br\s*[/]?>` matches).
pub open spec fn line_tag_len(s: Seq<char>) -> int {
    if starts_with(s, seq!['<', '/', 'd', 'i', 'v', '>']) {
        6
    } else if starts_with(s, seq!['<', '/', 'l', 'i', '>']) {
        5
    } else if starts_with(s, seq!['<', '/', 'u', 'l', '>']) {
        5
    } else if starts_with(s, seq!['<', '/', 'p', '>']) {
        4
    } else if starts_with(s, seq!['<', 'b', 'r']) {
        let k = skip_white(s, 3);
        let k2 = if k < s.len() && s[k] == '/' {
            k + 1
        } else {
            k
        };
        if 3 <= k2 < s.len() && s[k2] == '>' {
            k2 + 1
        } else {
            0
        }
    } else {
        0
    }
}

/// `s` scanned from the left with each line-breaking tag replaced by a newline.
pub open spec fn line_tags_broken(s: Seq<char>) -> Seq<char>
    decreases s.len(),
{
    if s.len() == 0 {
        seq![]
    } else if line_tag_len(s) > 0 {
        seq!['\n'] + line_tags_broken(s.skip(line_tag_len(s)))
    } else {
        seq![s[0]] + line_tags_broken(s.drop_first())
    }
}

/// `s` scanned from the left with each tag removed: a `<`, one or more
/// characters other than `>`, and a `>` (what the pattern `<[^>]+>` matches).
pub open spec fn tags_removed(s: Seq<char>) -> Seq<char>
    decreases s.len(),
{
    if s.len() == 0 {
        seq![]
    } else {
        let j = find_char(s, '>', 1);
        if s[0] == '<' && 2 <= j < s.len() {
            tags_removed(s.skip(j + 1))
        } else {
            seq![s[0]] + tags_removed(s.drop_first())
        }
    }
}

/// What `html2text` makes of `html`.
pub open spec fn html_text(html: Seq<char>) -> Seq<char> {
    tags_removed(line_tags_broken(list_items_marked(blocks_removed(html))))
}

/// Relies on `regex::Regex::replace_all`: removes `<style>..</style>` and
/// `<script>..</script>` blocks (shortest match, any case).
#[verifier::external_body]
fn remove_blocks(s: &str) -> (r: String)
    ensures
        r@ == blocks_removed(s@),
{
    let re = regex::Regex::new(r"(?i)<style[\s\S]*?</style>|<script[\s\S]*?</script>");
    re.unwrap().replace_all(s, "").into_owned()
}

/// Relies on `regex::Regex::replace_all`, which replaces the leftmost matches
/// one after another, without overlap: each `<li ...>` tag becomes `  *  `.
#[verifier::external_body]
fn mark_list_items(s: &str) -> (r: String)
    ensures
        r@ == list_items_marked(s@),
{
    regex::Regex::new(r"<li([\s\S]*?)>").unwrap().replace_all(s, "  *  ").into_owned()
}

/// Relies on `regex::Regex::replace_all`, which replaces the leftmost matches
/// one after another, without overlap (`\s` is Unicode white space): each
/// line-breaking tag becomes a newline.
#[verifier::external_body]
fn break_line_tags(s: &str) -> (r: String)
    ensures
        r@ == line_tags_broken(s@),
{
    let re = regex::Regex::new(r"</div>|</li>|</ul>|</p>|<br\s*[/]?>");
    re.unwrap().replace_all(s, "\n").into_owned()
}

/// Relies on `regex::Regex::replace_all`, which replaces the leftmost matches
/// one after another, without overlap: every tag that is left is removed.
#[verifier::external_body]
fn remove_tags(s: &str) -> (r: String)
    ensures
        r@ == tags_removed(s@),
{
    regex::Regex::new(r"<[^>]+>").unwrap().replace_all(s, "").into_owned()
}

/// Turns HTML into plain text: drops style and script blocks, marks list
/// items with `  *  `, breaks lines where block tags end and drops the other
/// tags.
pub fn html2text(html: &str) -> (r: String)
    ensures
        r@ == html_text(html@),
{
    let a = remove_blocks(html);
    let b = mark_list_items(a.as_str());
    let c = break_line_tags(b.as_str());
    remove_tags(c.as_str())
}

/// Escapes `text` for XML and renders it as plain paragraphs.
pub fn render_plain_text(text: &str) -> (r: String)
    ensures
        r@ == paragraphs(cleaned(text@)),
{
    let clean = clean_xml(text);
    render_paragraphs(clean.as_str())
}

pub open spec fn pre_open() -> Seq<char> {
    seq!['<', 'p', 'r', 'e', '>']
}

pub open spec fn pre_close() -> Seq<char> {
    seq!['<', '/', 'p', 'r', 'e', '>']
}

/// The XML fragment for a text field of type `t` whose content is `text`.
pub open spec fn field_xml(text: Seq<char>, t: char) -> Seq<char> {
    if t == 'h' {
        paragraphs(cleaned(html_text(text)))
    } else if t == 'g' || t == 'x' {
        pre_open() + text + pre_close()
    } else {
        paragraphs(cleaned(text))
    }
}

/// Renders the content of a text field of type `t`: HTML (`h`) as plain
/// paragraphs of its text, Pango and XDXF markup (`g`, `x`) verbatim in
/// `<pre>`, any other type as plain paragraphs.
pub fn cover_dict_data_to_xml(text: &str, t: char) -> (r: String)
    ensures
        r@ == field_xml(text@, t),
{
    if t == 'h' {
        let plain = html2text(text);
        render_plain_text(plain.as_str())
    } else if t == 'g' || t == 'x' {
        let mut out = String::new();
        out.append("<pre>");
        out.append(text);
        out.append("</pre>");
        proof {
            reveal_strlit("<pre>");
            reveal_strlit("</pre>");
            assert("<pre>"@ =~= pre_open());
            assert("</pre>"@ =~= pre_close());
        }
        out
    } else {
        render_plain_text(text)
    }
}

/// Whether `s` begins with `p`.
pub open spec fn starts_with(s: Seq<char>, p: Seq<char>) -> bool {
    p.len() <= s.len() && s.take(p.len() as int) == p
}

/// XML text read back: each of the five entities that `clean_xml` writes
/// becomes its character again.
pub open spec fn unescaped(s: Seq<char>) -> Seq<char>
    decreases s.len(),
{
    if s.len() == 0 {
        seq![]
    } else if starts_with(s, escape_char('&')) {
        seq!['&'] + unescaped(s.skip(5))
    } else if starts_with(s, escape_char('<')) {
        seq!['<'] + unescaped(s.skip(4))
    } else if starts_with(s, escape_char('>')) {
        seq!['>'] + unescaped(s.skip(4))
    } else if starts_with(s, escape_char('"')) {
        seq!['"'] + unescaped(s.skip(6))
    } else if starts_with(s, escape_char('\'')) {
        seq!['\''] + unescaped(s.skip(6))
    } else {
        seq![s[0]] + unescaped(s.drop_first())
    }
}

/// Whether `clean_xml` writes `c` as an entity.
pub open spec fn is_special(c: char) -> bool {
    c == '&' || c == '<' || c == '>' || c == '"' || c == '\''
}

proof fn lemma_legal_kept(s: Seq<char>)
    requires
        forall|i: int| 0 <= i < s.len() ==> xml_char(#[trigger] s[i]),
    ensures
        xml_legal(s) == s,
    decreases s.len(),
{
    if s.len() > 0 {
        lemma_legal_kept(s.drop_last());
        assert(xml_char(s[s.len() - 1]));
        reveal_with_fuel(Seq::filter, 1);
        assert(xml_legal(s) == xml_legal(s.drop_last()).push(s.last()));
        assert(s.drop_last().push(s.last()) =~= s);
    }
}

proof fn lemma_escaped_prepend(c: char, t: Seq<char>)
    ensures
        escaped(seq![c] + t) == escape_char(c) + escaped(t),
    decreases t.len(),
{
    if t.len() == 0 {
        assert(seq![c] + t =~= seq![c]);
        assert(seq![c].drop_last() =~= seq![]);
        assert(seq![c].last() == c);
        assert(escaped(seq![]) =~= seq![]);
        assert(escaped(seq![c]) == escaped(seq![c].drop_last()) + escape_char(c));
        assert(escape_char(c) + escaped(t) =~= escape_char(c));
        assert(seq![] + escape_char(c) =~= escape_char(c));
    } else {
        lemma_escaped_prepend(c, t.drop_last());
        assert((seq![c] + t).drop_last() =~= seq![c] + t.drop_last());
        assert((seq![c] + t).last() == t.last());
        assert(escape_char(c) + escaped(t.drop_last()) + escape_char(t.last()) =~= escape_char(c)
            + (escaped(t.drop_last()) + escape_char(t.last())));
    }
}

proof fn lemma_unescape_step(c: char, t: Seq<char>)
    ensures
        unescaped(escape_char(c) + t) == seq![c] + unescaped(t),
{
    let s = escape_char(c) + t;
    let e = escape_char(c);
    assert(s.skip(e.len() as int) =~= t);
    assert(s.take(e.len() as int) =~= e);
    assert(s[0] == e[0]);
    assert(escape_char('&')[0] == '&');
    assert(escape_char('&')[1] == 'a');
    assert(escape_char('<')[1] == 'l');
    assert(escape_char('>')[1] == 'g');
    assert(escape_char('"')[1] == 'q');
    if is_special(c) {
        assert(s[1] == e[1]);
        assert(s.take(4)[1] == s[1]);
        assert(s.take(4)[0] == s[0]);
        if s.len() >= 5 {
            assert(s.take(5)[1] == s[1]);
        }
        if s.len() >= 6 {
            assert(s.take(6)[1] == s[1]);
        }
    } else {
        if s.len() >= 4 {
            assert(s.take(4)[0] == s[0]);
        }
        if s.len() >= 5 {
            assert(s.take(5)[0] == s[0]);
        }
        if s.len() >= 6 {
            assert(s.take(6)[0] == s[0]);
        }
        assert(s.drop_first() =~= t);
    }
}

proof fn lemma_unescape_escaped(x: Seq<char>)
    ensures
        unescaped(escaped(x)) == x,
    decreases x.len(),
{
    if x.len() > 0 {
        let rest = x.drop_first();
        assert(seq![x[0]] + rest =~= x);
        lemma_escaped_prepend(x[0], rest);
        lemma_unescape_step(x[0], escaped(rest));
        lemma_unescape_escaped(rest);
    } else {
        assert(escaped(x) =~= seq![]);
    }
}

/// Text that holds only XML characters comes back unchanged when what
/// `clean_xml` writes for it is unescaped.
pub proof fn lemma_clean_xml_round_trip(x: Seq<char>)
    requires
        forall|i: int| 0 <= i < x.len() ==> xml_char(#[trigger] x[i]),
    ensures
        unescaped(cleaned(x)) == x,
{
    lemma_legal_kept(x);
    lemma_unescape_escaped(x);
}

proof fn lemma_escaped_legal(s: Seq<char>)
    requires
        forall|i: int| 0 <= i < s.len() ==> xml_char(#[trigger] s[i]),
    ensures
        forall|i: int| 0 <= i < escaped(s).len() ==> xml_char(#[trigger] escaped(s)[i]),
    decreases s.len(),
{
    if s.len() > 0 {
        lemma_escaped_legal(s.drop_last());
        let a = escaped(s.drop_last());
        let b = escape_char(s.last());
        assert(xml_char(s[s.len() - 1]));
        assert forall|i: int| 0 <= i < b.len() implies xml_char(#[trigger] b[i]) by {
            if !is_special(s.last()) {
                assert(b[i] == s.last());
            }
        }
        assert forall|i: int| 0 <= i < escaped(s).len() implies xml_char(
            #[trigger] escaped(s)[i],
        ) by {
            if i < a.len() {
                assert(escaped(s)[i] == a[i]);
            } else {
                assert(escaped(s)[i] == b[i - a.len()]);
            }
        }
    }
}

proof fn lemma_escaped_len(s: Seq<char>)
    ensures
        escaped(s).len() >= s.len(),
        (exists|k: int| 0 <= k < s.len() && s[k] == '&') ==> escaped(s).len() > s.len(),
    decreases s.len(),
{
    if s.len() > 0 {
        lemma_escaped_len(s.drop_last());
        if exists|k: int| 0 <= k < s.len() && s[k] == '&' {
            let k = choose|k: int| 0 <= k < s.len() && s[k] == '&';
            if k < s.len() - 1 {
                assert(s.drop_last()[k] == '&');
            }
        }
    }
}

proof fn lemma_escaped_amp(s: Seq<char>, j: int)
    requires
        0 <= j < s.len(),
        is_special(s[j]),
    ensures
        exists|k: int| 0 <= k < escaped(s).len() && escaped(s)[k] == '&',
    decreases s.len(),
{
    let a = escaped(s.drop_last());
    if j == s.len() - 1 {
        assert(escaped(s)[a.len() as int] == '&');
    } else {
        lemma_escaped_amp(s.drop_last(), j);
        let k = choose|k: int| 0 <= k < a.len() && a[k] == '&';
        assert(escaped(s)[k] == '&');
    }
}

/// `clean_xml` is not idempotent: wherever the text holds one of `&`, `<`,
/// `>`, `"` or `'`, cleaning twice gives a longer result than cleaning once.
pub proof fn lemma_clean_xml_not_idempotent(x: Seq<char>, i: int)
    requires
        0 <= i < x.len(),
        is_special(x[i]),
    ensures
        cleaned(cleaned(x)) != cleaned(x),
        cleaned(cleaned(x)).len() > cleaned(x).len(),
{
    let pred = |c: char| xml_char(c);
    let f = xml_legal(x);
    assert(xml_char(x[i]));
    assert(x.contains(x[i]));
    x.lemma_filter_contains_rev(pred, x[i]);
    assert(f.contains(x[i]));
    let j = choose|j: int| 0 <= j < f.len() && f[j] == x[i];
    lemma_escaped_amp(f, j);
    assert forall|k: int| 0 <= k < f.len() implies xml_char(#[trigger] f[k]) by {
        x.lemma_filter_pred(pred, k);
    }
    lemma_escaped_legal(f);
    let e = escaped(f);
    lemma_legal_kept(e);
    lemma_escaped_len(e);
}

} // verus!
