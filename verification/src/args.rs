//! Command-line lists: `--name a,b,c` read as a list of `usize`.
use vstd::prelude::*;

verus! {

/// `char::is_whitespace`: the Unicode `White_Space` property.
pub open spec fn is_ws(c: char) -> bool {
    let u = c as u32;
    ||| 0x9 <= u <= 0xd
    ||| u == 0x20
    ||| u == 0x85
    ||| u == 0xa0
    ||| u == 0x1680
    ||| 0x2000 <= u <= 0x200a
    ||| u == 0x2028
    ||| u == 0x2029
    ||| u == 0x202f
    ||| u == 0x205f
    ||| u == 0x3000
}

/// `str::trim_start`.
pub open spec fn trim_start(s: Seq<char>) -> Seq<char>
    decreases s.len(),
{
    if s.len() > 0 && is_ws(s[0]) {
        trim_start(s.drop_first())
    } else {
        s
    }
}

/// `str::trim_end`.
pub open spec fn trim_end(s: Seq<char>) -> Seq<char>
    decreases s.len(),
{
    if s.len() > 0 && is_ws(s.last()) {
        trim_end(s.drop_last())
    } else {
        s
    }
}

/// `str::trim`.
pub open spec fn trim(s: Seq<char>) -> Seq<char> {
    trim_end(trim_start(s))
}

/// `str::split(',')`: the pieces between commas (one piece when there is no comma).
pub open spec fn split_commas(s: Seq<char>) -> Seq<Seq<char>>
    decreases s.len(),
{
    if s.len() == 0 {
        seq![seq![]]
    } else if s.last() == ',' {
        split_commas(s.drop_last()).push(seq![])
    } else {
        let parts = split_commas(s.drop_last());
        parts.update(parts.len() - 1, parts.last().push(s.last()))
    }
}

pub open spec fn is_digit(c: char) -> bool {
    '0' <= c <= '9'
}

/// The decimal value of a string of digits.
pub open spec fn digits_value(s: Seq<char>) -> nat
    decreases s.len(),
{
    if s.len() == 0 {
        0
    } else {
        digits_value(s.drop_last()) * 10 + ((s.last() as u32) - ('0' as u32)) as nat
    }
}

/// `str::parse::<usize>`: an optional `+`, then one or more ASCII digits, with
/// a value that fits a `usize`.
pub open spec fn parse_usize(s: Seq<char>) -> Option<nat> {
    let digits = unsigned_digits(s);
    if digits.len() >= 1 && all_digits(digits) && digits_value(digits) <= usize::MAX {
        Some(digits_value(digits))
    } else {
        None
    }
}

/// The string without a leading `+` (kept when it is the whole string).
pub open spec fn unsigned_digits(s: Seq<char>) -> Seq<char> {
    if s.len() >= 2 && s[0] == '+' {
        s.drop_first()
    } else {
        s
    }
}

pub open spec fn all_digits(s: Seq<char>) -> bool {
    forall|i: int| 0 <= i < s.len() ==> is_digit(#[trigger] s[i])
}

/// The value after the first `name` that has one after it, if any.
pub open spec fn find_value(args: Seq<Seq<char>>, name: Seq<char>, i: nat) -> Option<Seq<char>>
    decreases args.len() - i,
{
    if i + 1 >= args.len() {
        None
    } else if args[i as int] == name {
        Some(args[i + 1 as int])
    } else {
        find_value(args, name, i + 1)
    }
}

/// The list that `arg_list` reads: the value after `name`, else `default`.
pub open spec fn arg_text(args: Seq<Seq<char>>, name: Seq<char>, default: Seq<char>) -> Seq<char> {
    match find_value(args, name, 0) {
        Some(v) => v,
        None => default,
    }
}

/// Every comma-separated piece of `text` parses once trimmed.
pub open spec fn all_parse(text: Seq<char>) -> bool {
    forall|i: int|
        0 <= i < split_commas(text).len() ==> (#[trigger] parse_usize(trim(split_commas(text)[i]))) is Some
}

pub open spec fn strings(args: Seq<String>) -> Seq<Seq<char>> {
    args.map_values(|s: String| s@)
}

fn chars_of(s: &str) -> (v: Vec<char>)
    ensures
        v@ == s@,
{
    let n = s.unicode_len();
    let mut v: Vec<char> = Vec::new();
    let mut i: usize = 0;
    while i < n
        invariant
            n == s@.len(),
            i <= n,
            v@ == s@.subrange(0, i as int),
        decreases n - i,
    {
        v.push(s.get_char(i));
        i = i + 1;
    }
    assert(s@.subrange(0, n as int) == s@);
    v
}

fn is_ws_char(c: char) -> (b: bool)
    ensures
        b == is_ws(c),
{
    let u = c as u32;
    (0x9 <= u && u <= 0xd) || u == 0x20 || u == 0x85 || u == 0xa0 || u == 0x1680 || (0x2000 <= u
        && u <= 0x200a) || u == 0x2028 || u == 0x2029 || u == 0x202f || u == 0x205f || u == 0x3000
}

proof fn lemma_trim_start_skip(s: Seq<char>, i: nat)
    requires
        i <= s.len(),
        forall|j: int| 0 <= j < i ==> is_ws(#[trigger] s[j]),
    ensures
        trim_start(s) == trim_start(s.subrange(i as int, s.len() as int)),
    decreases i,
{
    if i > 0 {
        assert(s.drop_first().subrange((i - 1) as int, s.drop_first().len() as int) =~= s.subrange(
            i as int,
            s.len() as int,
        ));
        lemma_trim_start_skip(s.drop_first(), (i - 1) as nat);
    } else {
        assert(s.subrange(0, s.len() as int) =~= s);
    }
}

proof fn lemma_trim_end_skip(s: Seq<char>, e: nat)
    requires
        e <= s.len(),
        forall|j: int| e <= j < s.len() ==> is_ws(#[trigger] s[j]),
    ensures
        trim_end(s) == trim_end(s.subrange(0, e as int)),
    decreases s.len() - e,
{
    if e < s.len() {
        assert(s.drop_last().subrange(0, e as int) =~= s.subrange(0, e as int));
        lemma_trim_end_skip(s.drop_last(), e);
    } else {
        assert(s.subrange(0, s.len() as int) =~= s);
    }
}

/// `trim` of a piece of characters.
fn trim_chars(s: &Vec<char>) -> (t: Vec<char>)
    ensures
        t@ == trim(s@),
{
    let mut b: usize = 0;
    while b < s.len() && is_ws_char(s[b])
        invariant
            b <= s@.len(),
            forall|j: int| 0 <= j < b ==> is_ws(#[trigger] s@[j]),
        decreases s@.len() - b,
    {
        b = b + 1;
    }
    proof {
        lemma_trim_start_skip(s@, b as nat);
    }
    let ghost rest = s@.subrange(b as int, s@.len() as int);
    assert(trim_start(rest) == rest);
    let mut e: usize = s.len();
    while e > b && is_ws_char(s[e - 1])
        invariant
            b <= e <= s@.len(),
            forall|j: int| e <= j < s@.len() ==> is_ws(#[trigger] s@[j]),
        decreases e,
    {
        e = e - 1;
    }
    proof {
        lemma_trim_end_skip(rest, (e - b) as nat);
        assert(rest.subrange(0, (e - b) as int) =~= s@.subrange(b as int, e as int));
        assert forall|j: int| (e - b) <= j < rest.len() implies is_ws(#[trigger] rest[j]) by {
            assert(rest[j] == s@[b + j]);
        }
    }
    let mut t: Vec<char> = Vec::new();
    let mut i: usize = b;
    while i < e
        invariant
            b <= i <= e,
            e <= s@.len(),
            t@ == s@.subrange(b as int, i as int),
        decreases e - i,
    {
        t.push(s[i]);
        i = i + 1;
    }
    proof {
        let u = s@.subrange(b as int, e as int);
        if u.len() > 0 {
            assert(!is_ws(u.last()));
        }
        assert(trim_end(u) == u);
    }
    t
}

fn chars_eq(a: &Vec<char>, b: &Vec<char>) -> (r: bool)
    ensures
        r == (a@ == b@),
{
    if a.len() != b.len() {
        return false;
    }
    let mut i: usize = 0;
    while i < a.len()
        invariant
            a@.len() == b@.len(),
            i <= a@.len(),
            forall|j: int| 0 <= j < i ==> a@[j] == b@[j],
        decreases a@.len() - i,
    {
        if a[i] != b[i] {
            return false;
        }
        i = i + 1;
    }
    assert(a@ =~= b@);
    true
}

/// `str::split(',')` on characters.
fn split_chars(s: &Vec<char>) -> (parts: Vec<Vec<char>>)
    ensures
        parts@.len() == split_commas(s@).len(),
        forall|i: int| 0 <= i < parts@.len() ==> (#[trigger] parts@[i])@ == split_commas(s@)[i],
{
    let mut parts: Vec<Vec<char>> = Vec::new();
    let mut cur: Vec<char> = Vec::new();
    let mut i: usize = 0;
    while i < s.len()
        invariant
            i <= s@.len(),
            split_commas(s@.subrange(0, i as int)).len() == parts@.len() + 1,
            forall|q: int| 0 <= q < parts@.len() ==> (#[trigger] parts@[q])@ == split_commas(s@.subrange(0, i as int))[q],
            cur@ == split_commas(s@.subrange(0, i as int)).last(),
        decreases s@.len() - i,
    {
        let c = s[i];
        let ghost prev = s@.subrange(0, i as int);
        assert(s@.subrange(0, i + 1 as int).drop_last() =~= prev);
        if c == ',' {
            parts.push(cur);
            cur = Vec::new();
            assert(cur@ =~= seq![]);
        } else {
            cur.push(c);
        }
        i = i + 1;
    }
    assert(s@.subrange(0, s@.len() as int) =~= s@);
    parts.push(cur);
    parts
}

proof fn lemma_digits_value_grows(s: Seq<char>, k: nat)
    requires
        k <= s.len(),
    ensures
        digits_value(s.subrange(0, k as int)) <= digits_value(s),
    decreases s.len() - k,
{
    if k < s.len() {
        lemma_digits_value_grows(s.drop_last(), k);
        assert(s.drop_last().subrange(0, k as int) =~= s.subrange(0, k as int));
    } else {
        assert(s.subrange(0, k as int) =~= s);
    }
}

/// `str::parse::<usize>` on characters.
fn parse_chars(t: &Vec<char>) -> (v: Option<usize>)
    ensures
        v is Some <==> parse_usize(t@) is Some,
        v matches Some(x) ==> x == parse_usize(t@).unwrap(),
{
    let ghost digits = unsigned_digits(t@);
    if t.len() == 0 {
        return None;
    }
    let start: usize = if t.len() >= 2 && t[0] == '+' {
        1
    } else {
        0
    };
    assert(digits =~= t@.subrange(start as int, t@.len() as int));
    let mut val: usize = 0;
    let mut i: usize = start;
    while i < t.len()
        invariant
            start <= i <= t@.len(),
            start <= 1,
            digits =~= t@.subrange(start as int, t@.len() as int),
            digits == unsigned_digits(t@),
            forall|j: int| 0 <= j < i - start ==> is_digit(#[trigger] digits[j]),
            val == digits_value(digits.subrange(0, i - start)),
        decreases t@.len() - i,
    {
        let c = t[i];
        assert(digits[i - start] == c);
        if !('0' <= c && c <= '9') {
            assert(!is_digit(digits[i - start]));
            assert(!(forall|j: int| 0 <= j < digits.len() ==> is_digit(#[trigger] digits[j])));
            assert(parse_usize(t@) is None);
            return None;
        }
        let dig: usize = ((c as u32) - ('0' as u32)) as usize;
        let ghost pre = digits.subrange(0, i - start);
        assert(digits.subrange(0, i + 1 - start).drop_last() =~= pre);
        if val > (usize::MAX - dig) / 10 {
            proof {
                assert(val * 10 + dig > usize::MAX) by (nonlinear_arith)
                    requires
                        val > (usize::MAX - dig) / 10,
                        dig <= 9,
                ;
                lemma_digits_value_grows(digits, (i + 1 - start) as nat);
                assert(digits.subrange(0, i + 1 - start).last() == c);
                assert(digits_value(digits.subrange(0, i + 1 - start)) == val * 10 + dig);
            }
            return None;
        }
        assert(val * 10 + dig <= usize::MAX) by (nonlinear_arith)
            requires
                val <= (usize::MAX - dig) / 10,
                dig <= 9,
        ;
        val = val * 10 + dig;
        i = i + 1;
    }
    assert(digits.subrange(0, digits.len() as int) =~= digits);
    Some(val)
}

/// The list of `usize` given after `name` (comma-separated, each item trimmed),
/// or read from `default` when `name` is not followed by a value; `None` when
/// an item does not parse.
pub fn try_arg_list(args: &[String], name: &str, default: &str) -> (v: Option<Vec<usize>>)
    ensures
        v is Some <==> all_parse(arg_text(strings(args@), name@, default@)),
        v matches Some(l) ==> {
            &&& l@.len() == split_commas(arg_text(strings(args@), name@, default@)).len()
            &&& forall|i: int|
                0 <= i < l@.len() ==> l@[i] == parse_usize(
                    trim(#[trigger] split_commas(arg_text(strings(args@), name@, default@))[i]),
                ).unwrap()
        },
{
    let ghost a = strings(args@);
    let n = args.len();
    let name_chars = chars_of(name);
    let mut i: usize = 0;
    let mut found = false;
    while !found && n > 1 && i < n - 1
        invariant
            a == strings(args@),
            a.len() == args@.len(),
            n == args@.len(),
            name_chars@ == name@,
            i <= args@.len(),
            found ==> i + 1 < args@.len() && find_value(a, name@, 0) == Some(a[i + 1 as int]),
            !found ==> find_value(a, name@, 0) == find_value(a, name@, i as nat),
        decreases args@.len() - i + (if found { 0int } else { 1int }),
    {
        let ai = chars_of(args[i].as_str());
        if chars_eq(&ai, &name_chars) {
            found = true;
        } else {
            i = i + 1;
        }
    }
    let text = if found {
        chars_of(args[i + 1].as_str())
    } else {
        chars_of(default)
    };
    let ghost txt = arg_text(a, name@, default@);
    assert(text@ == txt);
    let parts = split_chars(&text);
    let mut v: Vec<usize> = Vec::new();
    let mut k: usize = 0;
    while k < parts.len()
        invariant
            text@ == txt,
            txt == arg_text(strings(args@), name@, default@),
            parts@.len() == split_commas(txt).len(),
            forall|q: int| 0 <= q < parts@.len() ==> (#[trigger] parts@[q])@ == split_commas(txt)[q],
            k <= parts@.len(),
            v@.len() == k,
            forall|q: int| 0 <= q < k ==> (#[trigger] parse_usize(trim(split_commas(txt)[q]))) is Some,
            forall|q: int| 0 <= q < k ==> v@[q] == parse_usize(trim(#[trigger] split_commas(txt)[q])).unwrap(),
        decreases parts@.len() - k,
    {
        let piece = trim_chars(&parts[k]);
        match parse_chars(&piece) {
            Some(x) => v.push(x),
            None => {
                assert(piece@ == trim(split_commas(txt)[k as int]));
                assert(!all_parse(txt));
                return None;
            },
        }
        k = k + 1;
    }
    Some(v)
}

/// The list of `usize` given after `name` (comma-separated, each item trimmed),
/// or read from `default` when `name` is not followed by a value.
pub fn arg_list(args: &[String], name: &str, default: &str) -> (v: Vec<usize>)
    requires
        all_parse(arg_text(strings(args@), name@, default@)),
    ensures
        v@.len() == split_commas(arg_text(strings(args@), name@, default@)).len(),
        forall|i: int|
            0 <= i < v@.len() ==> v@[i] == parse_usize(
                trim(#[trigger] split_commas(arg_text(strings(args@), name@, default@))[i]),
            ).unwrap(),
{
    match try_arg_list(args, name, default) {
        Some(v) => v,
        None => {
            proof {
                assert(false);
            }
            Vec::new()
        },
    }
}

} // verus!
