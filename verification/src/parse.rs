//! Parsing a tableau literal: a flat sequence of signed integers separated
//! by `,` or `;` (interchangeably), to be written row-major into an
//! `n` by `n + 1` grid.
use vstd::prelude::*;

verus! {

/// The two separator characters, accepted interchangeably.
pub open spec fn is_sep(c: char) -> bool {
    c == ',' || c == ';'
}

/// The tokens of `s`: maximal runs between separators, in order.  An empty
/// input yields one empty token, and every separator opens a new token, as
/// splitting does.
pub open spec fn split_tokens(s: Seq<char>) -> Seq<Seq<char>>
    decreases s.len(),
{
    if s.len() == 0 {
        seq![Seq::<char>::empty()]
    } else {
        let rest = split_tokens(s.drop_last());
        if is_sep(s.last()) {
            rest.push(Seq::<char>::empty())
        } else {
            rest.update(rest.len() - 1, rest.last().push(s.last()))
        }
    }
}

pub proof fn lemma_split_tokens_len(s: Seq<char>)
    ensures
        split_tokens(s).len() >= 1,
    decreases s.len(),
{
    if s.len() > 0 {
        lemma_split_tokens_len(s.drop_last());
    }
}

/// A decimal digit.
pub open spec fn is_digit(c: char) -> bool {
    '0' <= c <= '9'
}

pub open spec fn all_digits(ds: Seq<char>) -> bool {
    forall|i: int| 0 <= i < ds.len() ==> is_digit(#[trigger] ds[i])
}

/// The value of a run of decimal digits, most significant first.
pub open spec fn digits_val(ds: Seq<char>) -> int
    decreases ds.len(),
{
    if ds.len() == 0 {
        0
    } else {
        digits_val(ds.drop_last()) * 10 + (ds.last() as int - 48)
    }
}

/// The digit run of a token: everything after an optional leading sign.
pub open spec fn token_digits(t: Seq<char>) -> Seq<char> {
    if t.len() >= 1 && (t[0] == '+' || t[0] == '-') {
        t.skip(1)
    } else {
        t
    }
}

pub open spec fn token_negative(t: Seq<char>) -> bool {
    t.len() >= 1 && t[0] == '-'
}

/// The signed value a token denotes.
pub open spec fn token_val(t: Seq<char>) -> int {
    if token_negative(t) {
        -digits_val(token_digits(t))
    } else {
        digits_val(token_digits(t))
    }
}

/// A token that parses as an `i32`: an optional single leading sign, at
/// least one digit, nothing but digits after the sign, and a value in range.
pub open spec fn valid_token(t: Seq<char>) -> bool {
    &&& token_digits(t).len() >= 1
    &&& all_digits(token_digits(t))
    &&& i32::MIN <= token_val(t) <= i32::MAX
}

/// Every token of `s` is a valid `i32` token.
pub open spec fn all_tokens_valid(s: Seq<char>) -> bool {
    forall|k: int| 0 <= k < split_tokens(s).len() ==> valid_token(#[trigger] split_tokens(s)[k])
}

proof fn lemma_digits_val_nonneg(ds: Seq<char>)
    requires
        all_digits(ds),
    ensures
        digits_val(ds) >= 0,
    decreases ds.len(),
{
    if ds.len() > 0 {
        lemma_digits_val_nonneg(ds.drop_last());
    }
}

/// Appending digits never shrinks the value of a digit run.
proof fn lemma_digits_val_grows(ds: Seq<char>, i: int)
    requires
        all_digits(ds),
        0 <= i <= ds.len(),
    ensures
        digits_val(ds) >= digits_val(ds.take(i)),
    decreases ds.len() - i,
{
    assert(all_digits(ds.take(i)));
    lemma_digits_val_nonneg(ds.take(i));
    if i < ds.len() {
        assert(ds.take(i + 1).drop_last() =~= ds.take(i));
        lemma_digits_val_grows(ds, i + 1);
    } else {
        assert(ds.take(i) =~= ds);
    }
}

/// The tokens a prefix has completed are tokens of the whole input: only the
/// last (still open) token of a prefix can still change.
proof fn lemma_split_prefix(s: Seq<char>, i: int)
    requires
        0 <= i <= s.len(),
    ensures
        split_tokens(s).len() >= split_tokens(s.take(i)).len(),
        forall|k: int|
            0 <= k < split_tokens(s.take(i)).len() - 1 ==> split_tokens(s)[k] == split_tokens(
                s.take(i),
            )[k],
    decreases s.len() - i,
{
    if i == s.len() {
        assert(s.take(i) =~= s);
    } else {
        lemma_split_prefix(s, i + 1);
        lemma_split_tokens_len(s.take(i));
        assert(s.take(i + 1).drop_last() =~= s.take(i));
    }
}

/// Parses one token as a signed 32-bit integer: `Some` exactly on valid
/// tokens, with the value the token denotes.
pub fn parse_i32(t: &Vec<char>) -> (r: Option<i32>)
    ensures
        valid_token(t@) ==> r == Some((token_val(t@)) as i32),
        !valid_token(t@) ==> r == None::<i32>,
{
    let n: usize = t.len();
    let mut idx: usize = 0;
    let mut neg: bool = false;
    if n >= 1 && (t[0] == '+' || t[0] == '-') {
        neg = t[0] == '-';
        idx = 1;
    }
    if idx >= n {
        return None;
    }
    let ghost ds = token_digits(t@);
    proof {
        assert(ds =~= t@.skip(idx as int));
    }
    let mut i: usize = idx;
    while i < n
        invariant
            idx <= i <= n,
            n == t@.len(),
            idx <= 1,
            ds == token_digits(t@),
            ds =~= t@.skip(idx as int),
            forall|c: int| 0 <= c < i - idx ==> is_digit(#[trigger] ds[c]),
        decreases n - i,
    {
        let c: char = t[i];
        if c < '0' || c > '9' {
            proof {
                assert(ds[i - idx] == t@[i as int]);
                assert(!is_digit(ds[i - idx]));
            }
            return None;
        }
        proof {
            assert(is_digit(ds[i - idx]));
        }
        i += 1;
    }
    proof {
        assert(all_digits(ds));
        lemma_digits_val_nonneg(ds);
    }
    let mut acc: i64 = 0;
    let mut i: usize = idx;
    while i < n
        invariant
            idx <= i <= n,
            n == t@.len(),
            idx <= 1,
            ds == token_digits(t@),
            ds =~= t@.skip(idx as int),
            all_digits(ds),
            0 <= acc <= 0x8000_0000,
            acc == digits_val(ds.take(i - idx)),
        decreases n - i,
    {
        let c: char = t[i];
        proof {
            assert(ds[i - idx] == t@[i as int]);
            assert(is_digit(ds[i - idx]));
        }
        let u: u32 = c as u32;
        proof {
            assert(u as int == c as int);
            assert(48 <= u <= 57);
            assert(ds.take(i + 1 - idx).drop_last() =~= ds.take(i - idx));
            lemma_digits_val_nonneg(ds.take(i + 1 - idx));
        }
        acc = acc * 10 + ((u - 48) as i64);
        i += 1;
        if acc > 0x8000_0000 {
            proof {
                lemma_digits_val_grows(ds, i - idx);
            }
            return None;
        }
    }
    proof {
        assert(ds.take(n - idx) =~= ds);
    }
    if neg {
        Some((-acc) as i32)
    } else {
        if acc > 0x7fff_ffff {
            None
        } else {
            Some(acc as i32)
        }
    }
}


/// Splits the input on the separators and parses every token as an `i32`:
/// the flat value sequence on success, and the token error as soon as any
/// token fails to parse.
pub fn parse_values(s: &str) -> (r: Result<Vec<i32>, crate::tableau::TabError>)
    ensures
        match r {
            Ok(vals) => all_tokens_valid(s@) && vals@.len() == split_tokens(s@).len() && (forall|
                k: int,
            |
                0 <= k < vals@.len() ==> vals@[k] as int == token_val(
                    #[trigger] split_tokens(s@)[k],
                )),
            Err(e) => e == crate::tableau::TabError::ParseToken && !all_tokens_valid(s@),
        },
{
    let n: usize = s.unicode_len();
    let mut vals: Vec<i32> = Vec::new();
    let mut cur: Vec<char> = Vec::new();
    let mut i: usize = 0;
    while i < n
        invariant
            0 <= i <= n,
            n == s@.len(),
            split_tokens(s@.take(i as int)).len() == vals@.len() + 1,
            cur@ == split_tokens(s@.take(i as int)).last(),
            forall|k: int|
                0 <= k < vals@.len() ==> valid_token(#[trigger] split_tokens(s@.take(i as int))[k])
                    && vals@[k] as int == token_val(split_tokens(s@.take(i as int))[k]),
        decreases n - i,
    {
        let c: char = s.get_char(i);
        proof {
            assert(s@.take(i as int + 1).drop_last() =~= s@.take(i as int));
            assert(s@.take(i as int + 1).last() == s@[i as int]);
        }
        if c == ',' || c == ';' {
            match parse_i32(&cur) {
                Some(v) => {
                    vals.push(v);
                    cur = Vec::new();
                },
                None => {
                    proof {
                        lemma_split_prefix(s@, i as int + 1);
                        let k0 = vals@.len() as int;
                        assert(split_tokens(s@)[k0] == cur@);
                        assert(!valid_token(split_tokens(s@)[k0]));
                    }
                    return Err(crate::tableau::TabError::ParseToken);
                },
            }
        } else {
            cur.push(c);
        }
        i += 1;
    }
    proof {
        assert(s@.take(n as int) =~= s@);
    }
    match parse_i32(&cur) {
        Some(v) => {
            vals.push(v);
            Ok(vals)
        },
        None => {
            proof {
                let k0 = vals@.len() as int;
                assert(split_tokens(s@)[k0] == cur@);
                assert(!valid_token(split_tokens(s@)[k0]));
            }
            Err(crate::tableau::TabError::ParseToken)
        },
    }
}

} // verus!
