//! The lenient command-line argument parser: a linear scan that classifies
//! each raw token as a long option, a run of short flags, or the positional
//! target, in any order.

use vstd::prelude::*;
use vstd::string::StrSliceExecFns;
use crate::walk::{opt_view, str_seq};

verus! {

/// The parsed command line: single-character flags, long options with their
/// optional values, and the positional target (the last one named wins).
pub struct Args {
    pub flags: Vec<String>,
    pub long_options: Vec<(String, Option<String>)>,
    pub target: Option<String>,
}

/// Mathematical image of a parsed command line.
pub ghost struct ArgsModel {
    pub flags: Seq<Seq<char>>,
    pub opts: Map<Seq<char>, Option<Seq<char>>>,
    pub target: Option<Seq<char>>,
}

/// The option mapping a list of key/value pairs stands for.
pub open spec fn opts_map(s: Seq<(String, Option<String>)>) -> Map<Seq<char>, Option<Seq<char>>>
    decreases s.len(),
{
    if s.len() == 0 {
        Map::empty()
    } else {
        opts_map(s.drop_last()).insert(s.last().0@, opt_view(s.last().1))
    }
}

/// The option keys are unique, so the pair list stands for a mapping.
pub open spec fn uniq_keys(s: Seq<(String, Option<String>)>) -> bool {
    forall|p: int, q: int|
        0 <= p < q < s.len() ==> #[trigger] s[p].0@ != #[trigger] s[q].0@
}

impl View for Args {
    type V = ArgsModel;

    open spec fn view(&self) -> ArgsModel {
        ArgsModel {
            flags: str_seq(self.flags@),
            opts: opts_map(self.long_options@),
            target: opt_view(self.target),
        }
    }
}

impl Args {
    pub open spec fn wf(self) -> bool {
        uniq_keys(self.long_options@)
    }
}

/// String-slice equality, through the specified `String` comparison.
fn str_eq(a: &str, b: &str) -> (r: bool)
    ensures
        r == (a@ == b@),
{
    let sa: String = a.to_owned();
    let sb: String = b.to_owned();
    sa == sb
}

proof fn lemma_opts_contains(s: Seq<(String, Option<String>)>, k: Seq<char>)
    ensures
        opts_map(s).contains_key(k) <==> exists|i: int| 0 <= i < s.len() && #[trigger] s[i].0@ == k,
    decreases s.len(),
{
    if s.len() > 0 {
        lemma_opts_contains(s.drop_last(), k);
        if opts_map(s).contains_key(k) {
            if s.last().0@ == k {
                assert(s[s.len() - 1].0@ == k);
            } else {
                let i = choose|i: int| 0 <= i < s.drop_last().len() && #[trigger] s.drop_last()[i].0@ == k;
                assert(s[i].0@ == k);
            }
        }
        if exists|i: int| 0 <= i < s.len() && #[trigger] s[i].0@ == k {
            let i = choose|i: int| 0 <= i < s.len() && #[trigger] s[i].0@ == k;
            if i < s.len() - 1 {
                assert(s.drop_last()[i].0@ == k);
            }
        }
    }
}

proof fn lemma_opts_at(s: Seq<(String, Option<String>)>, i: int)
    requires
        0 <= i < s.len(),
        uniq_keys(s),
    ensures
        opts_map(s).contains_key(s[i].0@),
        opts_map(s)[s[i].0@] == opt_view(s[i].1),
    decreases s.len(),
{
    if i == s.len() - 1 {
    } else {
        assert(forall|p: int, q: int|
            0 <= p < q < s.drop_last().len() ==> #[trigger] s.drop_last()[p].0@ != #[trigger] s.drop_last()[q].0@);
        lemma_opts_at(s.drop_last(), i);
        assert(s.drop_last()[i] == s[i]);
        assert(s[i].0@ != s.last().0@);
    }
}

proof fn lemma_opts_update(s: Seq<(String, Option<String>)>, i: int, r: (String, Option<String>))
    requires
        0 <= i < s.len(),
        uniq_keys(s),
        r.0@ == s[i].0@,
    ensures
        opts_map(s.update(i, r)) == opts_map(s).insert(r.0@, opt_view(r.1)),
    decreases s.len(),
{
    let t = s.update(i, r);
    if i == s.len() - 1 {
        assert(t.drop_last() =~= s.drop_last());
        assert(t.last() == r);
        assert(opts_map(s).insert(r.0@, opt_view(r.1)) =~= opts_map(s.drop_last()).insert(
            r.0@,
            opt_view(r.1),
        ));
    } else {
        assert(forall|p: int, q: int|
            0 <= p < q < s.drop_last().len() ==> #[trigger] s.drop_last()[p].0@ != #[trigger] s.drop_last()[q].0@);
        lemma_opts_update(s.drop_last(), i, r);
        assert(t.drop_last() =~= s.drop_last().update(i, r));
        assert(t.last() == s.last());
        assert(s[i].0@ != s.last().0@);
        assert(opts_map(t) =~= opts_map(s).insert(r.0@, opt_view(r.1)));
    }
}

impl Args {
    /// Whether the single-character flag was given.
    pub fn has_flag(&self, flag: char) -> (r: bool)
        ensures
            r == self@.flags.contains(seq![flag]),
    {
        let n = self.flags.len();
        let mut i: usize = 0;
        while i < n
            invariant
                0 <= i <= n,
                n == self.flags@.len(),
                forall|j: int| 0 <= j < i ==> #[trigger] self.flags@[j]@ != seq![flag],
            decreases n - i,
        {
            let f = &self.flags[i];
            if f.as_str().unicode_len() == 1 && f.as_str().get_char(0) == flag {
                proof {
                    assert(f@ =~= seq![flag]);
                    assert(self@.flags[i as int] == seq![flag]);
                }
                return true;
            }
            proof {
                if self.flags@[i as int]@.len() == 1 {
                    assert(self.flags@[i as int]@ != seq![flag]) by {
                        assert(self.flags@[i as int]@[0] != flag);
                    }
                }
            }
            i += 1;
        }
        proof {
            assert forall|j: int| 0 <= j < self@.flags.len() implies self@.flags[j] != seq![flag] by {
                assert(self.flags@[j]@ != seq![flag]);
            }
        }
        false
    }

    /// Whether the long option was given, with or without a value.
    pub fn has_option(&self, option: &str) -> (r: bool)
        ensures
            r == self@.opts.contains_key(option@),
    {
        let n = self.long_options.len();
        let mut i: usize = 0;
        while i < n
            invariant
                0 <= i <= n,
                n == self.long_options@.len(),
                forall|j: int| 0 <= j < i ==> #[trigger] self.long_options@[j].0@ != option@,
            decreases n - i,
        {
            if str_eq(self.long_options[i].0.as_str(), option) {
                proof {
                    lemma_opts_contains(self.long_options@, option@);
                }
                return true;
            }
            i += 1;
        }
        proof {
            lemma_opts_contains(self.long_options@, option@);
        }
        false
    }

    /// Whether the flag or the equivalent long option was given.
    pub fn has_flag_or_option(&self, flag: char, option: &str) -> (r: bool)
        ensures
            r == (self@.flags.contains(seq![flag]) || self@.opts.contains_key(option@)),
    {
        self.has_flag(flag) || self.has_option(option)
    }

    /// The value given with the long option: `None` when the option is
    /// absent, and also when it was given without a value.
    #[verifier::loop_isolation(false)]
    pub fn get_option_value(&self, option: &str) -> (r: Option<String>)
        requires
            self.wf(),
        ensures
            match r {
                Option::Some(v) => self@.opts.contains_key(option@) && self@.opts[option@]
                    == Option::Some(v@),
                Option::None => !self@.opts.contains_key(option@) || self@.opts[option@] is None,
            },
    {
        let n = self.long_options.len();
        let mut i: usize = 0;
        while i < n
            invariant
                0 <= i <= n,
                n == self.long_options@.len(),
                forall|j: int| 0 <= j < i ==> #[trigger] self.long_options@[j].0@ != option@,
            decreases n - i,
        {
            if str_eq(self.long_options[i].0.as_str(), option) {
                proof {
                    lemma_opts_at(self.long_options@, i as int);
                }
                return match &self.long_options[i].1 {
                    Option::Some(v) => Option::Some(v.clone()),
                    Option::None => Option::None,
                };
            }
            i += 1;
        }
        proof {
            lemma_opts_contains(self.long_options@, option@);
        }
        None
    }
}

/// A token that opens with two dashes names a long option.
pub open spec fn is_long(a: Seq<char>) -> bool {
    a.len() >= 2 && a[0] == '-' && a[1] == '-'
}

/// A token that opens with a single dash carries short flags.
pub open spec fn is_short(a: Seq<char>) -> bool {
    a.len() >= 1 && a[0] == '-' && !is_long(a)
}

/// Splits a token at its first `=`: the part before it, and the part after
/// it if there is one.
pub open spec fn eq_split(s: Seq<char>) -> (Seq<char>, Option<Seq<char>>)
    decreases s.len(),
{
    if s.len() == 0 {
        (Seq::empty(), Option::None)
    } else if s[0] == '=' {
        (Seq::empty(), Option::Some(s.drop_first()))
    } else {
        let (k, v) = eq_split(s.drop_first());
        (seq![s[0]] + k, v)
    }
}

/// Removes every (non-overlapping, left to right) `--` from the token, as
/// the original's key normalisation does.
pub open spec fn strip_dd(s: Seq<char>) -> Seq<char>
    decreases s.len(),
{
    if s.len() >= 2 && s[0] == '-' && s[1] == '-' {
        strip_dd(s.skip(2))
    } else if s.len() == 0 {
        Seq::empty()
    } else {
        seq![s[0]] + strip_dd(s.drop_first())
    }
}

/// The flags a short token carries: each character that is not a dash, as a
/// one-character string, in order.
pub open spec fn short_flags(a: Seq<char>) -> Seq<Seq<char>>
    decreases a.len(),
{
    if a.len() == 0 {
        Seq::empty()
    } else {
        short_flags(a.drop_last()) + if a.last() == '-' {
            Seq::empty()
        } else {
            seq![seq![a.last()]]
        }
    }
}

/// How one raw token changes the parsed command line.
pub open spec fn parse_one(m: ArgsModel, arg: Seq<char>) -> ArgsModel {
    if is_long(arg) {
        let (kp, v) = eq_split(arg);
        ArgsModel { opts: m.opts.insert(strip_dd(kp), v), ..m }
    } else if is_short(arg) {
        ArgsModel { flags: m.flags + short_flags(arg), ..m }
    } else {
        ArgsModel { target: Option::Some(arg), ..m }
    }
}

pub open spec fn empty_model() -> ArgsModel {
    ArgsModel { flags: Seq::empty(), opts: Map::empty(), target: Option::None }
}

/// Folding a list of raw tokens into a parsed command line, left to right.
pub open spec fn parse_fold(m: ArgsModel, args: Seq<Seq<char>>) -> ArgsModel
    decreases args.len(),
{
    if args.len() == 0 {
        m
    } else {
        parse_one(parse_fold(m, args.drop_last()), args.last())
    }
}

/// What `parse_args` returns for a raw argument list.
pub open spec fn parse_model(args: Seq<Seq<char>>) -> ArgsModel {
    parse_fold(empty_model(), args)
}

proof fn lemma_eq_split_at(s: Seq<char>, e: int)
    requires
        0 <= e <= s.len(),
        forall|j: int| 0 <= j < e ==> s[j] != '=',
        e == s.len() || s[e] == '=',
    ensures
        eq_split(s).0 == s.take(e),
        eq_split(s).1 == if e < s.len() {
            Option::Some(s.skip(e + 1))
        } else {
            Option::<Seq<char>>::None
        },
    decreases e,
{
    if e == 0 {
        if s.len() > 0 {
            assert(eq_split(s).0 =~= s.take(0));
            assert(s.drop_first() =~= s.skip(1));
        } else {
            assert(eq_split(s).0 =~= s.take(0));
        }
    } else {
        lemma_eq_split_at(s.drop_first(), e - 1);
        assert(eq_split(s).0 =~= s.take(e));
        if e < s.len() {
            assert(s.drop_first().skip(e) =~= s.skip(e + 1));
        }
    }
}

/// Removes every `--` from a token, left to right.
fn strip_dashes(s: &str) -> (r: String)
    ensures
        r@ == strip_dd(s@),
    decreases s@.len(),
{
    let n = s.unicode_len();
    if n >= 2 && s.get_char(0) == '-' && s.get_char(1) == '-' {
        proof {
            assert(s@.subrange(2, n as int) =~= s@.skip(2));
        }
        strip_dashes(s.substring_char(2, n))
    } else if n == 0 {
        String::new()
    } else {
        let mut r = s.substring_char(0, 1).to_owned();
        proof {
            assert(s@.subrange(1, n as int) =~= s@.drop_first());
        }
        r.append(strip_dashes(s.substring_char(1, n)).as_str());
        proof {
            assert(r@ =~= seq![s@[0]] + strip_dd(s@.drop_first()));
        }
        r
    }
}

/// Inserts or replaces one option, keeping the keys unique.
#[verifier::loop_isolation(false)]
fn set_option(opts: &mut Vec<(String, Option<String>)>, key: String, val: Option<String>)
    requires
        uniq_keys(old(opts)@),
    ensures
        uniq_keys(final(opts)@),
        opts_map(final(opts)@) == opts_map(old(opts)@).insert(key@, opt_view(val)),
{
    let ghost s0 = opts@;
    let n = opts.len();
    let mut i: usize = 0;
    while i < n
        invariant
            0 <= i <= n,
            n == opts@.len(),
            opts@ == s0,
            forall|j: int| 0 <= j < i ==> #[trigger] opts@[j].0@ != key@,
        decreases n - i,
    {
        if str_eq(opts[i].0.as_str(), key.as_str()) {
            proof {
                lemma_opts_update(s0, i as int, (key, val));
            }
            opts[i] = (key, val);
            proof {
                assert(opts@ =~= s0.update(i as int, opts@[i as int]));
            }
            return ;
        }
        i += 1;
    }
    opts.push((key, val));
    proof {
        assert(opts@.drop_last() =~= s0);
    }
}

/// Parses a raw argument list: long options (split at the first `=`, with
/// every `--` removed from the key), runs of short flags behind one or more
/// dashes, and the positional target, of which the last wins.
#[verifier::loop_isolation(false)]
pub fn parse_args(raw_args: Vec<String>) -> (r: Args)
    ensures
        r.wf(),
        r@ == parse_model(str_seq(raw_args@)),
{
    let mut flags: Vec<String> = Vec::new();
    let mut long_options: Vec<(String, Option<String>)> = Vec::new();
    let mut target: Option<String> = None;
    let n = raw_args.len();
    let mut i: usize = 0;
    proof {
        assert(str_seq(raw_args@).take(0) =~= Seq::<Seq<char>>::empty());
        assert(str_seq(flags@) =~= Seq::<Seq<char>>::empty());
        assert(parse_model(str_seq(raw_args@).take(0)) == empty_model());
    }
    while i < n
        invariant
            0 <= i <= n,
            n == raw_args@.len(),
            uniq_keys(long_options@),
            (ArgsModel {
                flags: str_seq(flags@),
                opts: opts_map(long_options@),
                target: opt_view(target),
            }) == parse_model(str_seq(raw_args@).take(i as int)),
        decreases n - i,
    {
        let arg: &String = &raw_args[i];
        let ghost av = arg@;
        proof {
            assert(str_seq(raw_args@).take(i as int + 1).drop_last() =~= str_seq(raw_args@).take(
                i as int,
            ));
            assert(str_seq(raw_args@).take(i as int + 1).last() == av);
        }
        let m = arg.as_str().unicode_len();
        if m >= 2 && arg.as_str().get_char(0) == '-' && arg.as_str().get_char(1) == '-' {
            // a long option: split at the first `=`
            let mut e: usize = 0;
            while e < m && arg.as_str().get_char(e) != '='
                invariant
                    0 <= e <= m,
                    forall|j: int| 0 <= j < e ==> av[j] != '=',
                decreases m - e,
            {
                e += 1;
            }
            proof {
                lemma_eq_split_at(av, e as int);
            }
            let key = strip_dashes(arg.as_str().substring_char(0, e));
            proof {
                assert(av.subrange(0, e as int) =~= av.take(e as int));
            }
            let val: Option<String> = if e < m {
                proof {
                    assert(av.subrange(e as int + 1, m as int) =~= av.skip(e as int + 1));
                }
                Some(arg.as_str().substring_char(e + 1, m).to_owned())
            } else {
                None
            };
            set_option(&mut long_options, key, val);
        } else if m >= 1 && arg.as_str().get_char(0) == '-' {
            // a run of short flags: every character but the dashes
            let ghost f0 = str_seq(flags@);
            let mut j: usize = 0;
            proof {
                assert(short_flags(av.take(0)) =~= Seq::<Seq<char>>::empty());
                assert(f0 + short_flags(av.take(0)) =~= f0);
            }
            while j < m
                invariant
                    0 <= j <= m,
                    m == av.len(),
                    str_seq(flags@) == f0 + short_flags(av.take(j as int)),
                decreases m - j,
            {
                let ghost pre = av.take(j as int);
                proof {
                    assert(av.take(j as int + 1).drop_last() =~= pre);
                    assert(av.take(j as int + 1).last() == av[j as int]);
                }
                let c = arg.as_str().get_char(j);
                if c != '-' {
                    let one = arg.as_str().substring_char(j, j + 1).to_owned();
                    proof {
                        assert(one@ =~= seq![av[j as int]]);
                    }
                    flags.push(one);
                    proof {
                        assert(short_flags(av.take(j as int + 1)) =~= short_flags(pre) + seq![
                            seq![av[j as int]],
                        ]);
                        assert(str_seq(flags@) =~= (f0 + short_flags(pre)) + seq![
                            seq![av[j as int]],
                        ]);
                        assert(str_seq(flags@) =~= f0 + short_flags(av.take(j as int + 1)));
                    }
                } else {
                    proof {
                        assert(short_flags(av.take(j as int + 1)) =~= short_flags(pre));
                        assert(str_seq(flags@) =~= f0 + short_flags(av.take(j as int + 1)));
                    }
                }
                j += 1;
            }
            proof {
                assert(av.take(m as int) =~= av);
            }
        } else {
            target = Some(arg.clone());
        }
        i += 1;
    }
    proof {
        assert(str_seq(raw_args@).take(n as int) =~= str_seq(raw_args@));
    }
    Args { flags, long_options, target }
}

/// The list a comma-separated option value stands for, as `str::split(',')`
/// would give it: the pieces between the commas, an empty string where two
/// commas meet, and one (possibly empty) piece even for an empty input.
pub open spec fn comma_split(s: Seq<char>) -> Seq<Seq<char>>
    decreases s.len(),
    via comma_split_decreases
{
    let p = comma_pos(s);
    if p >= s.len() {
        seq![s]
    } else {
        seq![s.take(p)] + comma_split(s.skip(p + 1))
    }
}

/// The index of the first comma, or `s.len()` if there is none.
pub open spec fn comma_pos(s: Seq<char>) -> int
    decreases s.len(),
{
    if s.len() == 0 {
        0
    } else if s[0] == ',' {
        0
    } else {
        1 + comma_pos(s.drop_first())
    }
}

#[via_fn]
proof fn comma_split_decreases(s: Seq<char>) {
    lemma_comma_pos(s);
}

proof fn lemma_comma_pos(s: Seq<char>)
    ensures
        0 <= comma_pos(s) <= s.len(),
        comma_pos(s) < s.len() ==> s[comma_pos(s)] == ',',
        forall|j: int| 0 <= j < comma_pos(s) ==> s[j] != ',',
    decreases s.len(),
{
    if s.len() > 0 && s[0] != ',' {
        lemma_comma_pos(s.drop_first());
        assert forall|j: int| 0 <= j < comma_pos(s) implies s[j] != ',' by {
            if j > 0 {
                assert(s.drop_first()[j - 1] != ',');
            }
        }
    }
}

proof fn lemma_comma_pos_at(s: Seq<char>, i: int)
    requires
        0 <= i <= s.len(),
        forall|j: int| 0 <= j < i ==> s[j] != ',',
        i == s.len() || s[i] == ',',
    ensures
        comma_pos(s) == i,
    decreases i,
{
    if i > 0 {
        lemma_comma_pos_at(s.drop_first(), i - 1);
    }
}

/// Splits a comma-separated extension list, as the original does with the
/// value of the ignore option.
#[verifier::loop_isolation(false)]
pub fn split_commas(s: &str) -> (r: Vec<String>)
    ensures
        str_seq(r@) == comma_split(s@),
{
    let mut out: Vec<String> = Vec::new();
    let mut rest: &str = s;
    proof {
        assert(comma_split(s@) =~= Seq::<Seq<char>>::empty() + comma_split(rest@));
    }
    loop
        invariant
            comma_split(s@) == str_seq(out@) + comma_split(rest@),
        decreases rest@.len(),
    {
        let n = rest.unicode_len();
        let mut p: usize = 0;
        while p < n && rest.get_char(p) != ','
            invariant
                0 <= p <= n,
                n == rest@.len(),
                forall|j: int| 0 <= j < p ==> rest@[j] != ',',
            decreases n - p,
        {
            p += 1;
        }
        proof {
            lemma_comma_pos_at(rest@, p as int);
        }
        if p < n {
            let piece = rest.substring_char(0, p).to_owned();
            proof {
                assert(piece@ =~= rest@.take(p as int));
            }
            let ghost old_rest = rest@;
            out.push(piece);
            rest = rest.substring_char(p + 1, n);
            proof {
                assert(rest@ =~= old_rest.skip(p as int + 1));
                assert(comma_split(old_rest) == seq![old_rest.take(p as int)] + comma_split(rest@));
                assert(str_seq(out@) =~= str_seq(out@.drop_last()) + seq![old_rest.take(p as int)]);
                assert(str_seq(out@) + comma_split(rest@) =~= comma_split(s@));
            }
        } else {
            let piece = rest.to_owned();
            proof {
                assert(comma_split(rest@) == seq![rest@]);
            }
            out.push(piece);
            proof {
                assert(str_seq(out@) =~= str_seq(out@.drop_last()) + seq![rest@]);
                assert(str_seq(out@) =~= comma_split(s@));
            }
            return out;
        }
    }
}

/// The same token split into one-flag tokens: a dash before each character
/// that is not a dash.
pub open spec fn singleton_args(a: Seq<char>) -> Seq<Seq<char>>
    decreases a.len(),
{
    if a.len() == 0 {
        Seq::empty()
    } else {
        singleton_args(a.drop_last()) + if a.last() == '-' {
            Seq::empty()
        } else {
            seq![seq!['-', a.last()]]
        }
    }
}

/// Combined short flags are the same as separate ones: a run of characters
/// behind dashes changes the parsed command line exactly as naming each
/// flag in its own dash-prefixed token would.
pub proof fn lemma_combined_short_flags(m: ArgsModel, arg: Seq<char>)
    requires
        is_short(arg),
    ensures
        parse_one(m, arg) == parse_fold(m, singleton_args(arg)),
    decreases arg.len(),
{
    if arg.len() == 1 {
        assert(short_flags(arg.drop_last()) =~= Seq::<Seq<char>>::empty());
        assert(short_flags(arg) =~= Seq::<Seq<char>>::empty());
        assert(singleton_args(arg) =~= Seq::<Seq<char>>::empty());
        assert(m.flags + short_flags(arg) =~= m.flags);
        assert(parse_one(m, arg) == m);
    } else {
        let a = arg.drop_last();
        let c = arg.last();
        assert(is_short(a)) by {
            assert(a[0] == arg[0]);
            if a.len() >= 2 {
                assert(a[1] == arg[1]);
            }
        }
        lemma_combined_short_flags(m, a);
        let ma = parse_fold(m, singleton_args(a));
        if c == '-' {
            assert(singleton_args(arg) =~= singleton_args(a));
            assert(short_flags(arg) =~= short_flags(a));
            assert(parse_one(m, arg) == parse_one(m, a));
        } else {
            let tok = seq!['-', c];
            assert(singleton_args(arg) =~= singleton_args(a) + seq![tok]);
            assert((singleton_args(a) + seq![tok]).drop_last() =~= singleton_args(a));
            assert((singleton_args(a) + seq![tok]).last() == tok);
            assert(parse_fold(m, singleton_args(arg)) == parse_one(ma, tok));
            assert(is_short(tok)) by {
                assert(tok[0] == '-');
                assert(tok[1] == c);
            }
            let td = tok.drop_last();
            assert(td =~= seq!['-']);
            assert(td.last() == '-');
            assert(td.drop_last() =~= Seq::<char>::empty());
            assert(short_flags(td.drop_last()) == Seq::<Seq<char>>::empty());
            assert(short_flags(td) =~= Seq::<Seq<char>>::empty());
            assert(short_flags(tok) =~= seq![seq![c]]);
            assert(short_flags(arg) =~= short_flags(a) + seq![seq![c]]);
            assert(parse_one(ma, tok).flags =~= (m.flags + short_flags(a)) + seq![seq![c]]);
            assert(parse_one(m, arg).flags =~= m.flags + (short_flags(a) + seq![seq![c]]));
            assert(parse_one(ma, tok).flags =~= parse_one(m, arg).flags);
            assert(parse_one(ma, tok) == parse_one(m, arg));
        }
    }
}

} // verus!
