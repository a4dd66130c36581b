//! The descriptor file: `key=value` lines that describe a dictionary.
use vstd::prelude::*;
use crate::DictError;
use crate::text::chars_of;

verus! {

/// What a dictionary's descriptor declares.
#[derive(Debug)]
pub struct Info {
    pub version: String,
    /// How many records the index holds.
    pub wordcount: i32,
    /// The declared size of the index file.
    pub idxfilesize: u64,
    /// The name shown to readers.
    pub bookname: String,
    /// The types of the fields of every entry; empty where each field names its own.
    pub sametypesequence: String,
}

pub struct InfoView {
    pub version: Seq<char>,
    pub wordcount: int,
    pub idxfilesize: int,
    pub bookname: Seq<char>,
    pub sametypesequence: Seq<char>,
}

impl View for Info {
    type V = InfoView;

    open spec fn view(&self) -> InfoView {
        InfoView {
            version: self.version@,
            wordcount: self.wordcount as int,
            idxfilesize: self.idxfilesize as int,
            bookname: self.bookname@,
            sametypesequence: self.sametypesequence@,
        }
    }
}

/// The record of a descriptor that declares nothing.
pub open spec fn empty_info() -> InfoView {
    InfoView {
        version: seq![],
        wordcount: 0,
        idxfilesize: 0,
        bookname: seq![],
        sametypesequence: seq![],
    }
}

impl Default for Info {
    fn default() -> (r: Info)
        ensures
            r@ == empty_info(),
    {
        Info {
            version: String::new(),
            wordcount: 0,
            idxfilesize: 0,
            bookname: String::new(),
            sametypesequence: String::new(),
        }
    }
}

pub open spec fn is_digit(c: char) -> bool {
    48 <= (c as u32) && (c as u32) <= 57
}

/// The number that the decimal digits `s` write.
pub open spec fn digits_value(s: Seq<char>) -> int
    decreases s.len(),
{
    if s.len() == 0 {
        0
    } else {
        digits_value(s.drop_last()) * 10 + (s.last() as u32 - 48)
    }
}

/// Whether `s` is one or more decimal digits.
pub open spec fn is_decimal(s: Seq<char>) -> bool {
    s.len() > 0 && forall|i: int| 0 <= i < s.len() ==> is_digit(#[trigger] s[i])
}

/// `s` read as an unsigned 64-bit number: an optional `+`, then digits.
pub open spec fn u64_of(s: Seq<char>) -> Option<int> {
    let d = if s.len() > 0 && s[0] == '+' {
        s.drop_first()
    } else {
        s
    };
    if is_decimal(d) && digits_value(d) <= u64::MAX {
        Some(digits_value(d))
    } else {
        None
    }
}

/// `s` read as a signed 32-bit number: an optional `+` or `-`, then digits.
pub open spec fn i32_of(s: Seq<char>) -> Option<int> {
    if s.len() > 0 && s[0] == '-' {
        let d = s.drop_first();
        if is_decimal(d) && digits_value(d) <= 0x8000_0000 {
            Some(-digits_value(d))
        } else {
            None
        }
    } else {
        let d = if s.len() > 0 && s[0] == '+' {
            s.drop_first()
        } else {
            s
        };
        if is_decimal(d) && digits_value(d) <= i32::MAX {
            Some(digits_value(d))
        } else {
            None
        }
    }
}

proof fn lemma_digits_grow(s: Seq<char>, i: int, j: int)
    requires
        0 <= i <= j <= s.len(),
        forall|k: int| 0 <= k < s.len() ==> is_digit(#[trigger] s[k]),
    ensures
        digits_value(s.take(i)) <= digits_value(s.take(j)),
    decreases j - i,
{
    if i < j {
        lemma_digits_grow(s, i, j - 1);
        lemma_digits_nonneg(s.take(j - 1));
        assert(s.take(j).drop_last() =~= s.take(j - 1));
    }
}

proof fn lemma_digits_nonneg(s: Seq<char>)
    requires
        forall|k: int| 0 <= k < s.len() ==> is_digit(#[trigger] s[k]),
    ensures
        digits_value(s) >= 0,
    decreases s.len(),
{
    if s.len() > 0 {
        lemma_digits_nonneg(s.drop_last());
    }
}

/// The decimal number written by `s[start..]`, where it is one and at most `limit`.
fn read_decimal(s: &Vec<char>, start: usize, limit: u64) -> (r: Option<u64>)
    requires
        start <= s@.len(),
        limit >= 9,
    ensures
        r is Some <==> is_decimal(s@.skip(start as int)) && digits_value(s@.skip(start as int))
            <= limit,
        r matches Some(v) ==> v as int == digits_value(s@.skip(start as int)) && v <= limit,
{
    let ghost d = s@.skip(start as int);
    if start == s.len() {
        return None;
    }
    let mut acc: u64 = 0;
    let mut i: usize = start;
    while i < s.len()
        invariant
            start <= i <= s@.len(),
            limit >= 9,
            d == s@.skip(start as int),
            forall|k: int| 0 <= k < i - start ==> is_digit(#[trigger] d[k]),
            acc as int == digits_value(d.take(i - start)),
            acc <= limit,
        decreases s@.len() - i,
    {
        let u = s[i] as u32;
        if !(48 <= u && u <= 57) {
            assert(!is_digit(d[i - start]));
            return None;
        }
        let v = (u - 48) as u64;
        assert(d.take(i - start + 1).drop_last() =~= d.take(i - start));
        if acc > (limit - v) / 10 {
            proof {
                assert(digits_value(d.take(i - start + 1)) > limit) by (nonlinear_arith)
                    requires
                        acc > (limit - v) / 10,
                        digits_value(d.take(i - start + 1)) == acc * 10 + v,
                        v <= 9,
                        v <= limit,
                ;
                let dd = d;
                if is_decimal(dd) {
                    lemma_digits_grow(dd, i - start + 1, dd.len() as int);
                    assert(dd.take(dd.len() as int) =~= dd);
                }
            }
            return None;
        }
        acc = acc * 10 + v;
        i += 1;
    }
    assert(d.take(i - start) =~= d);
    Some(acc)
}

fn parse_u64(s: &Vec<char>) -> (r: Option<u64>)
    ensures
        match u64_of(s@) {
            Some(v) => r matches Some(n) && n as int == v,
            None => r is None,
        },
{
    let start: usize = if s.len() > 0 && s[0] == '+' { 1 } else { 0 };
    assert(s@.skip(start as int) =~= (if s@.len() > 0 && s@[0] == '+' {
        s@.drop_first()
    } else {
        s@
    }));
    read_decimal(s, start, u64::MAX)
}

fn parse_i32(s: &Vec<char>) -> (r: Option<i32>)
    ensures
        match i32_of(s@) {
            Some(v) => r matches Some(n) && n as int == v,
            None => r is None,
        },
{
    if s.len() > 0 && s[0] == '-' {
        assert(s@.skip(1) =~= s@.drop_first());
        match read_decimal(s, 1, 0x8000_0000) {
            Some(v) => {
                let w = v as i64;
                Some((-w) as i32)
            },
            None => None,
        }
    } else {
        let start: usize = if s.len() > 0 && s[0] == '+' { 1 } else { 0 };
        assert(s@.skip(start as int) =~= (if s@.len() > 0 && s@[0] == '+' {
            s@.drop_first()
        } else {
            s@
        }));
        match read_decimal(s, start, 0x7fff_ffff) {
            Some(v) => Some(v as i32),
            None => None,
        }
    }
}

/// The index of the first `=` of `s` at or after `pos`, or `s.len()`.
pub open spec fn eq_at(s: Seq<char>, pos: int) -> int
    decreases s.len() - pos,
{
    if pos < 0 || pos >= s.len() {
        s.len() as int
    } else if s[pos] == '=' {
        pos
    } else {
        eq_at(s, pos + 1)
    }
}

/// Whether `line` is a `key=value` line: split at its first `=`, with a key
/// and a value that are not empty.
pub open spec fn is_pair(line: Seq<char>) -> bool {
    let k = eq_at(line, 0);
    0 < k && k + 1 < line.len()
}

pub open spec fn key_of(line: Seq<char>) -> Seq<char> {
    line.take(eq_at(line, 0))
}

pub open spec fn value_of(line: Seq<char>) -> Seq<char> {
    line.skip(eq_at(line, 0) + 1)
}

/// What the descriptor line `line` makes of the record `i`. Keys other than
/// `version`, `wordcount`, `idxfilesize`, `bookname` and `sametypesequence`
/// leave it as it is.
pub open spec fn apply_line(i: InfoView, line: Seq<char>) -> Result<InfoView, DictError> {
    if !is_pair(line) {
        Ok(i)
    } else {
        let key = key_of(line);
        let value = value_of(line);
        if key == "version"@ {
            Ok(InfoView { version: value, ..i })
        } else if key == "wordcount"@ {
            match i32_of(value) {
                Some(n) => Ok(InfoView { wordcount: n, ..i }),
                None => Err(DictError::Format),
            }
        } else if key == "idxfilesize"@ {
            match u64_of(value) {
                Some(n) => Ok(InfoView { idxfilesize: n, ..i }),
                None => Err(DictError::Format),
            }
        } else if key == "bookname"@ {
            Ok(InfoView { bookname: value, ..i })
        } else if key == "sametypesequence"@ {
            Ok(InfoView { sametypesequence: value, ..i })
        } else {
            Ok(i)
        }
    }
}

/// The record that the descriptor lines `lines` declare, read in order.
pub open spec fn info_of(lines: Seq<Seq<char>>) -> Result<InfoView, DictError>
    decreases lines.len(),
{
    if lines.len() == 0 {
        Ok(empty_info())
    } else {
        match info_of(lines.drop_last()) {
            Ok(i) => apply_line(i, lines.last()),
            Err(e) => Err(e),
        }
    }
}

/// Whether the first `k` characters of `line` are those of `word`.
fn key_is(line: &Vec<char>, k: usize, word: &str) -> (r: bool)
    requires
        k <= line@.len(),
    ensures
        r == (line@.take(k as int) == word@),
{
    let w = chars_of(word);
    if w.len() != k {
        assert(line@.take(k as int).len() != word@.len());
        return false;
    }
    let mut j: usize = 0;
    while j < k
        invariant
            j <= k <= line@.len(),
            w@ == word@,
            w@.len() == k,
            forall|m: int| 0 <= m < j ==> line@[m] == w@[m],
        decreases k - j,
    {
        if line[j] != w[j] {
            assert(line@.take(k as int)[j as int] != word@[j as int]);
            return false;
        }
        j += 1;
    }
    assert(line@.take(k as int) =~= word@);
    true
}

/// The characters of `s[from..]`.
fn tail_chars(s: &Vec<char>, from: usize) -> (r: Vec<char>)
    requires
        from <= s@.len(),
    ensures
        r@ == s@.skip(from as int),
{
    let mut out: Vec<char> = Vec::new();
    let mut j = from;
    while j < s.len()
        invariant
            from <= j <= s@.len(),
            out@ == s@.subrange(from as int, j as int),
        decreases s@.len() - j,
    {
        out.push(s[j]);
        assert(out@ =~= s@.subrange(from as int, j + 1));
        j += 1;
    }
    assert(out@ =~= s@.skip(from as int));
    out
}

/// The string of the characters `v`.
fn string_of(v: &Vec<char>) -> (r: String)
    ensures
        r@ == v@,
{
    let mut out = String::new();
    let mut j: usize = 0;
    while j < v.len()
        invariant
            j <= v@.len(),
            out@ == v@.take(j as int),
        decreases v@.len() - j,
    {
        crate::text::push_char(&mut out, v[j]);
        assert(out@ =~= v@.take(j + 1));
        j += 1;
    }
    assert(v@.take(j as int) =~= v@);
    out
}

impl Info {
    /// Applies one descriptor line; see `apply_line`.
    fn apply(&mut self, line: &str) -> (r: Result<(), DictError>)
        ensures
            match apply_line(old(self)@, line@) {
                Ok(i) => r is Ok && final(self)@ == i,
                Err(e) => r == Err::<(), DictError>(e),
            },
    {
        let cs = chars_of(line);
        let mut k: usize = 0;
        while k < cs.len() && cs[k] != '='
            invariant
                k <= cs@.len(),
                cs@ == line@,
                eq_at(cs@, 0) == eq_at(cs@, k as int),
            decreases cs@.len() - k,
        {
            k += 1;
        }
        assert(eq_at(cs@, k as int) == k);
        if k == 0 || k >= cs.len() || cs.len() - k < 2 {
            return Ok(());
        }
        assert(key_of(line@) == cs@.take(k as int));
        let value = tail_chars(&cs, k + 1);
        if key_is(&cs, k, "version") {
            self.version = string_of(&value);
        } else if key_is(&cs, k, "wordcount") {
            match parse_i32(&value) {
                Some(n) => self.wordcount = n,
                None => return Err(DictError::Format),
            }
        } else if key_is(&cs, k, "idxfilesize") {
            match parse_u64(&value) {
                Some(n) => self.idxfilesize = n,
                None => return Err(DictError::Format),
            }
        } else if key_is(&cs, k, "bookname") {
            self.bookname = string_of(&value);
        } else if key_is(&cs, k, "sametypesequence") {
            self.sametypesequence = string_of(&value);
        }
        Ok(())
    }
}

/// Reads the descriptor lines `lines` in order: each `key=value` line sets the
/// field of its key. Fails with `Format` at the first `wordcount` or
/// `idxfilesize` whose value is not a number of the field's type.
pub fn parse_info(lines: &Vec<String>) -> (r: Result<Info, DictError>)
    ensures
        match info_of(lines@.map_values(|l: String| l@)) {
            Ok(i) => r matches Ok(x) && x@ == i,
            Err(e) => r == Err::<Info, DictError>(e),
        },
{
    let ghost ls = lines@.map_values(|l: String| l@);
    let mut info = Info::default();
    let mut j: usize = 0;
    assert(ls.take(0) =~= seq![]);
    while j < lines.len()
        invariant
            j <= lines@.len(),
            ls == lines@.map_values(|l: String| l@),
            info_of(ls.take(j as int)) == Ok::<InfoView, DictError>(info@),
        decreases lines@.len() - j,
    {
        assert(ls.take(j + 1).drop_last() =~= ls.take(j as int));
        match info.apply(lines[j].as_str()) {
            Ok(()) => {},
            Err(e) => {
                proof {
                    lemma_info_error(ls, j + 1);
                }
                return Err(e);
            },
        }
        j += 1;
    }
    assert(ls.take(j as int) =~= ls);
    Ok(info)
}

proof fn lemma_info_error(ls: Seq<Seq<char>>, j: int)
    requires
        0 <= j <= ls.len(),
        info_of(ls.take(j)) is Err,
    ensures
        info_of(ls) == info_of(ls.take(j)),
    decreases ls.len() - j,
{
    if j < ls.len() {
        assert(ls.take(j + 1).drop_last() =~= ls.take(j));
        lemma_info_error(ls, j + 1);
    } else {
        assert(ls.take(j) =~= ls);
    }
}

/// Whether `key` names a field of the descriptor record.
pub open spec fn is_known_key(key: Seq<char>) -> bool {
    key == "version"@ || key == "wordcount"@ || key == "idxfilesize"@ || key == "bookname"@ || key
        == "sametypesequence"@
}

/// Whether `line` sets `wordcount`.
pub open spec fn sets_wordcount(line: Seq<char>) -> bool {
    is_pair(line) && key_of(line) == "wordcount"@
}

/// Whether `line` either sets no field or sets `wordcount` to a value that reads 3.
pub open spec fn sets_only_wordcount_three(line: Seq<char>) -> bool {
    !is_pair(line) || !is_known_key(key_of(line)) || (sets_wordcount(line) && i32_of(value_of(line))
        == Some(3int))
}

proof fn lemma_wordcount_prefix(lines: Seq<Seq<char>>)
    requires
        forall|i: int| 0 <= i < lines.len() ==> sets_only_wordcount_three(#[trigger] lines[i]),
    ensures
        info_of(lines) == Ok::<InfoView, DictError>(
            InfoView {
                wordcount: if exists|i: int| 0 <= i < lines.len() && sets_wordcount(#[trigger] lines[i]) {
                    3
                } else {
                    0
                },
                ..empty_info()
            },
        ),
    decreases lines.len(),
{
    if lines.len() > 0 {
        let p = lines.drop_last();
        let l = lines[lines.len() - 1];
        assert(sets_only_wordcount_three(l));
        lemma_wordcount_prefix(p);
        reveal_strlit("version");
        reveal_strlit("wordcount");
        reveal_strlit("idxfilesize");
        reveal_strlit("bookname");
        reveal_strlit("sametypesequence");
        assert("wordcount"@.len() == 9);
        assert("version"@.len() == 7);
        assert("wordcount"@ != "version"@);
        assert(lines.last() == l);
        let prev = info_of(p)->Ok_0;
        assert(info_of(lines) == apply_line(prev, l));
        if sets_wordcount(l) {
            assert(0 <= lines.len() - 1 < lines.len() && sets_wordcount(lines[lines.len() - 1]));
            assert(apply_line(prev, l) == Ok::<InfoView, DictError>(InfoView { wordcount: 3, ..prev }));
        } else {
            assert(apply_line(prev, l) == Ok::<InfoView, DictError>(prev));
            if exists|i: int| 0 <= i < lines.len() && sets_wordcount(#[trigger] lines[i]) {
                let i = choose|i: int| 0 <= i < lines.len() && sets_wordcount(#[trigger] lines[i]);
                assert(i < lines.len() - 1);
                assert(p[i] == lines[i]);
            }
            if exists|i: int| 0 <= i < p.len() && sets_wordcount(#[trigger] p[i]) {
                let i = choose|i: int| 0 <= i < p.len() && sets_wordcount(#[trigger] p[i]);
                assert(lines[i] == p[i]);
            }
        }
    }
}

/// A descriptor whose only line that sets a field is `wordcount` with a value
/// that reads 3 declares three records and leaves every other field empty.
pub proof fn lemma_wordcount_only(lines: Seq<Seq<char>>)
    requires
        forall|i: int| 0 <= i < lines.len() ==> sets_only_wordcount_three(#[trigger] lines[i]),
        exists|i: int| 0 <= i < lines.len() && sets_wordcount(#[trigger] lines[i]),
    ensures
        info_of(lines) == Ok::<InfoView, DictError>(InfoView { wordcount: 3, ..empty_info() }),
{
    lemma_wordcount_prefix(lines);
}

} // verus!
