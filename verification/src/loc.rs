//! Per-line classification of file contents into blank, comment and code
//! lines, and derivation of a file's category from its name.

use vstd::prelude::*;
use vstd::string::StrSliceExecFns;
use vstd::string::StringExecFns;

verus! {

/// One category record: a category name and the accumulated counts.
pub struct LocData {
    pub lang: String,
    pub files: u32,
    pub blank: u32,
    pub comment: u32,
    pub code: u32,
}

/// Mathematical image of a `LocData` record.
pub ghost struct LocModel {
    pub lang: Seq<char>,
    pub files: int,
    pub blank: int,
    pub comment: int,
    pub code: int,
}

impl View for LocData {
    type V = LocModel;

    open spec fn view(&self) -> LocModel {
        LocModel {
            lang: self.lang@,
            files: self.files as int,
            blank: self.blank as int,
            comment: self.comment as int,
            code: self.code as int,
        }
    }
}

impl LocData {
    /// A fresh record for the given category, with all counts zero.
    pub fn of(lang: String) -> (r: LocData)
        ensures
            r@ == (LocModel { lang: lang@, files: 0, blank: 0, comment: 0, code: 0 }),
    {
        LocData { lang, files: 0, blank: 0, comment: 0, code: 0 }
    }

    /// A copy of this record.
    pub fn duplicate(&self) -> (r: LocData)
        ensures
            r@ == self@,
    {
        LocData {
            lang: self.lang.clone(),
            files: self.files,
            blank: self.blank,
            comment: self.comment,
            code: self.code,
        }
    }
}

/// The characters with the Unicode `White_Space` property, the set that
/// `str::trim` removes at the ends of a line.
pub open spec fn is_space(c: char) -> bool {
    ||| c == ' '
    ||| c == '\t'
    ||| c == '\n'
    ||| c == '\u{0b}'
    ||| c == '\u{0c}'
    ||| c == '\r'
    ||| c == '\u{85}'
    ||| c == '\u{a0}'
    ||| c == '\u{1680}'
    ||| ('\u{2000}' <= c && c <= '\u{200a}')
    ||| c == '\u{2028}'
    ||| c == '\u{2029}'
    ||| c == '\u{202f}'
    ||| c == '\u{205f}'
    ||| c == '\u{3000}'
}

fn is_space_char(c: char) -> (r: bool)
    ensures
        r == is_space(c),
{
    c == ' ' || c == '\t' || c == '\n' || c == '\u{0b}' || c == '\u{0c}' || c == '\r'
        || c == '\u{85}' || c == '\u{a0}' || c == '\u{1680}' || ('\u{2000}' <= c && c
        <= '\u{200a}') || c == '\u{2028}' || c == '\u{2029}' || c == '\u{202f}' || c == '\u{205f}'
        || c == '\u{3000}'
}

/// How many leading whitespace characters the line has.
pub open spec fn ws_prefix(s: Seq<char>) -> int
    decreases s.len(),
{
    if s.len() == 0 || !is_space(s[0]) {
        0
    } else {
        1 + ws_prefix(s.drop_first())
    }
}

/// A line is blank when every character is whitespace, so that trimming
/// leaves it empty.
pub open spec fn blank_line(s: Seq<char>) -> bool {
    forall|i: int| 0 <= i < s.len() ==> is_space(#[trigger] s[i])
}

/// A line is a comment when, after leading whitespace, it starts with `#`
/// or with `//`.  Trailing whitespace cannot change this verdict, so this
/// matches classifying the fully trimmed line.
pub open spec fn comment_line(s: Seq<char>) -> bool {
    let t = s.skip(ws_prefix(s));
    t.len() > 0 && (t[0] == '#' || (t.len() >= 2 && t[0] == '/' && t[1] == '/'))
}

/// The verdict on one line: blank if all whitespace, comment if the trimmed
/// line starts with `//` or `#`, code otherwise.
pub enum LineKind {
    Blank,
    Comment,
    Code,
}

pub open spec fn line_kind(s: Seq<char>) -> LineKind {
    if blank_line(s) {
        LineKind::Blank
    } else if comment_line(s) {
        LineKind::Comment
    } else {
        LineKind::Code
    }
}

proof fn lemma_ws_prefix_at(s: Seq<char>, i: int)
    requires
        0 <= i <= s.len(),
        forall|j: int| 0 <= j < i ==> is_space(#[trigger] s[j]),
        i == s.len() || !is_space(s[i]),
    ensures
        ws_prefix(s) == i,
    decreases i,
{
    if i == 0 {
    } else {
        assert(is_space(s[0]));
        lemma_ws_prefix_at(s.drop_first(), i - 1);
    }
}

/// Classifies one line (no line terminator inside) as the original tool
/// does: trim, then test for empty, then for a `//` or `#` opening.
pub fn classify_line(line: &str) -> (k: LineKind)
    ensures
        k == line_kind(line@),
{
    let n = line.unicode_len();
    let mut i: usize = 0;
    while i < n && is_space_char(line.get_char(i))
        invariant
            0 <= i <= n,
            n == line@.len(),
            forall|j: int| 0 <= j < i ==> is_space(#[trigger] line@[j]),
        decreases n - i,
    {
        i += 1;
    }
    if i == n {
        return LineKind::Blank;
    }
    proof {
        lemma_ws_prefix_at(line@, i as int);
        assert(!blank_line(line@));
        assert(line@.skip(i as int)[0] == line@[i as int]);
    }
    let c0 = line.get_char(i);
    if c0 == '#' {
        LineKind::Comment
    } else if c0 == '/' && i + 1 < n && line.get_char(i + 1) == '/' {
        proof {
            assert(line@.skip(i as int)[1] == line@[i as int + 1]);
        }
        LineKind::Comment
    } else {
        proof {
            if line@.skip(i as int).len() >= 2 {
                assert(line@.skip(i as int)[1] == line@[i as int + 1]);
            }
        }
        LineKind::Code
    }
}

/// The index of the first line feed in `s`, or `s.len()` if there is none.
pub open spec fn line_break(s: Seq<char>) -> int
    decreases s.len(),
{
    if s.len() == 0 {
        0
    } else if s[0] == '\n' {
        0
    } else {
        1 + line_break(s.drop_first())
    }
}

proof fn lemma_line_break_le(s: Seq<char>)
    ensures
        0 <= line_break(s) <= s.len(),
        line_break(s) < s.len() ==> s[line_break(s)] == '\n',
        forall|j: int| 0 <= j < line_break(s) ==> s[j] != '\n',
    decreases s.len(),
{
    if s.len() > 0 && s[0] != '\n' {
        lemma_line_break_le(s.drop_first());
        assert forall|j: int| 0 <= j < line_break(s) implies s[j] != '\n' by {
            if j > 0 {
                assert(s.drop_first()[j - 1] != '\n');
            }
        }
    }
}

proof fn lemma_line_break_at(s: Seq<char>, i: int)
    requires
        0 <= i <= s.len(),
        forall|j: int| 0 <= j < i ==> s[j] != '\n',
        i == s.len() || s[i] == '\n',
    ensures
        line_break(s) == i,
    decreases i,
{
    if i > 0 {
        lemma_line_break_at(s.drop_first(), i - 1);
    }
}

/// The first line of `s`: what stands before the first line feed, with a
/// carriage return dropped when the line feed follows one.  A final line
/// without a line feed keeps a trailing carriage return, as `str::lines`
/// does.
pub open spec fn first_line(s: Seq<char>) -> Seq<char> {
    let p = line_break(s);
    if p < s.len() && p > 0 && s[p - 1] == '\r' {
        s.take(p - 1)
    } else {
        s.take(p)
    }
}

/// The lines of a file's content, split at line feeds; a final line feed
/// ends the last line rather than opening an empty one.
pub open spec fn lines_of(s: Seq<char>) -> Seq<Seq<char>>
    decreases s.len(),
    via lines_of_decreases
{
    if s.len() == 0 {
        Seq::empty()
    } else {
        let p = line_break(s);
        if p >= s.len() {
            seq![first_line(s)]
        } else {
            seq![first_line(s)] + lines_of(s.skip(p + 1))
        }
    }
}

#[via_fn]
proof fn lines_of_decreases(s: Seq<char>) {
    lemma_line_break_le(s);
}

/// The number of lines never exceeds the number of characters (when there is
/// at least one character, each line consumes one).
pub proof fn lemma_lines_le(s: Seq<char>)
    ensures
        lines_of(s).len() <= s.len(),
    decreases s.len(),
{
    lemma_line_break_le(s);
    if s.len() > 0 && line_break(s) < s.len() {
        lemma_lines_le(s.skip(line_break(s) + 1));
    }
}

/// The classifier's result for one file: how many lines were blank, comment
/// and code.
pub ghost struct LineTally {
    pub blank: int,
    pub comment: int,
    pub code: int,
}

pub open spec fn tally_zero() -> LineTally {
    LineTally { blank: 0, comment: 0, code: 0 }
}

pub open spec fn tally_line(t: LineTally, line: Seq<char>) -> LineTally {
    match line_kind(line) {
        LineKind::Blank => LineTally { blank: t.blank + 1, ..t },
        LineKind::Comment => LineTally { comment: t.comment + 1, ..t },
        LineKind::Code => LineTally { code: t.code + 1, ..t },
    }
}

pub open spec fn tally_of_lines(ls: Seq<Seq<char>>) -> LineTally
    decreases ls.len(),
{
    if ls.len() == 0 {
        tally_zero()
    } else {
        tally_line(tally_of_lines(ls.drop_first()), ls[0])
    }
}

/// What the classifier owes for a whole file content: the tally of its lines.
pub open spec fn content_tally(s: Seq<char>) -> LineTally {
    tally_of_lines(lines_of(s))
}

/// Every line is exactly one of blank, comment or code: the three tallies of
/// a file sum to its number of lines.
pub proof fn lemma_tally_sum(ls: Seq<Seq<char>>)
    ensures
        tally_of_lines(ls).blank >= 0,
        tally_of_lines(ls).comment >= 0,
        tally_of_lines(ls).code >= 0,
        tally_of_lines(ls).blank + tally_of_lines(ls).comment + tally_of_lines(ls).code
            == ls.len(),
    decreases ls.len(),
{
    if ls.len() > 0 {
        lemma_tally_sum(ls.drop_first());
    }
}

/// The line counts the classifier hands back for one file.
pub struct Counts {
    pub blank: u32,
    pub comment: u32,
    pub code: u32,
}

impl View for Counts {
    type V = LineTally;

    open spec fn view(&self) -> LineTally {
        LineTally {
            blank: self.blank as int,
            comment: self.comment as int,
            code: self.code as int,
        }
    }
}

/// Counts the blank, comment and code lines of one file's content.
#[verifier::loop_isolation(false)]
pub fn count_line_kinds(content: &str) -> (c: Counts)
    requires
        content@.len() <= u32::MAX,
    ensures
        c@ == content_tally(content@),
{
    let mut blank: u32 = 0;
    let mut comment: u32 = 0;
    let mut code: u32 = 0;
    let mut rest: &str = content;
    proof {
        lemma_tally_sum(lines_of(content@));
        lemma_lines_le(content@);
    }
    loop
        invariant
            rest@.len() <= content@.len(),
            content_tally(content@).blank == blank + content_tally(rest@).blank,
            content_tally(content@).comment == comment + content_tally(rest@).comment,
            content_tally(content@).code == code + content_tally(rest@).code,
            blank + comment + code + lines_of(rest@).len() == lines_of(content@).len(),
        decreases rest@.len(),
    {
        let n = rest.unicode_len();
        if n == 0 {
            break;
        }
        proof {
            lemma_tally_sum(lines_of(rest@));
            lemma_lines_le(rest@);
        }
        // find the first line feed
        let mut p: usize = 0;
        while p < n && rest.get_char(p) != '\n'
            invariant
                0 <= p <= n,
                forall|j: int| 0 <= j < p ==> rest@[j] != '\n',
            decreases n - p,
        {
            p += 1;
        }
        proof {
            lemma_line_break_at(rest@, p as int);
        }
        let line: &str = if p < n && p > 0 && rest.get_char(p - 1) == '\r' {
            rest.substring_char(0, p - 1)
        } else {
            rest.substring_char(0, p)
        };
        proof {
            assert(line@ == first_line(rest@));
            lemma_tally_sum(lines_of(rest@).drop_first());
        }
        match classify_line(line) {
            LineKind::Blank => {
                blank += 1;
            },
            LineKind::Comment => {
                comment += 1;
            },
            LineKind::Code => {
                code += 1;
            },
        }
        let ghost old_rest = rest@;
        if p < n {
            rest = rest.substring_char(p + 1, n);
            proof {
                assert(lines_of(old_rest) == seq![first_line(old_rest)] + lines_of(rest@));
                assert(lines_of(old_rest).drop_first() =~= lines_of(rest@));
                assert(lines_of(old_rest)[0] == first_line(old_rest));
            }
        } else {
            rest = rest.substring_char(n, n);
            proof {
                assert(rest@ =~= Seq::<char>::empty());
                assert(lines_of(old_rest) =~= seq![first_line(old_rest)]);
                assert(lines_of(old_rest).drop_first() =~= lines_of(rest@));
                assert(lines_of(old_rest)[0] == first_line(old_rest));
            }
        }
    }
    proof {
        assert(lines_of(rest@) =~= Seq::<Seq<char>>::empty());
    }
    Counts { blank, comment, code }
}

/// The position of the last `.` in `s`, or `-1` if there is none.
pub open spec fn last_dot(s: Seq<char>) -> int
    decreases s.len(),
{
    if s.len() == 0 {
        -1
    } else if s.last() == '.' {
        s.len() - 1
    } else {
        last_dot(s.drop_last())
    }
}

pub proof fn lemma_last_dot(s: Seq<char>)
    ensures
        -1 <= last_dot(s) < s.len(),
        last_dot(s) >= 0 ==> s[last_dot(s)] == '.',
        forall|j: int| last_dot(s) < j < s.len() ==> s[j] != '.',
    decreases s.len(),
{
    if s.len() > 0 && s.last() != '.' {
        lemma_last_dot(s.drop_last());
        assert forall|j: int| last_dot(s) < j < s.len() implies s[j] != '.' by {
            if j < s.len() - 1 {
                assert(s.drop_last()[j] != '.');
            }
        }
    }
}

/// The category a file name falls under: the text after the last `.`; a name
/// with no `.`, or with nothing after the last `.`, falls under "unknown".
pub open spec fn ext_spec(name: Seq<char>) -> Seq<char> {
    let d = last_dot(name);
    if 0 <= d && d < name.len() - 1 {
        name.skip(d + 1)
    } else {
        "unknown"@
    }
}

/// Derives the category key from a file name.
#[verifier::loop_isolation(false)]
pub fn extension_of(name: &str) -> (r: String)
    ensures
        r@ == ext_spec(name@),
        (last_dot(name@) == -1 || last_dot(name@) == name@.len() - 1) ==> r@ == "unknown"@,
{
    let n = name.unicode_len();
    let mut j: usize = n;
    while j > 0 && name.get_char(j - 1) != '.'
        invariant
            0 <= j <= n,
            forall|k: int| j <= k < n ==> name@[k] != '.',
        decreases j,
    {
        j -= 1;
    }
    proof {
        lemma_last_dot(name@);
        if j > 0 {
            // the character before j is a dot, and none follows it
            assert(name@[j - 1] == '.');
            assert(last_dot(name@) == j - 1);
        } else {
            if last_dot(name@) >= 0 {
                assert(name@[last_dot(name@)] != '.');
            }
        }
    }
    if j > 0 && j < n {
        let ext = name.substring_char(j, n);
        ext.to_owned()
    } else {
        String::from_str("unknown")
    }
}

} // verus!
