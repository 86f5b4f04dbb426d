//! The identifier model: addresses of actors, possibly across systems.
//!
//! The textual wire form is `(system ':')? (name | '#' u64)`.  A `system`
//! part may not contain `:`; a `name` may not begin with `#` and may not
//! contain `:`.  Omitting the `system:` prefix denotes the current system.
//! Decoding is strict: malformed input yields a parse error, never a silent
//! coercion.

use vstd::prelude::*;

verus! {

/// Byte value of `:`.
pub const COLON: u8 = 58;

/// Byte value of `#`.
pub const HASH: u8 = 35;

/// The address of an actor.  Names and system ids are byte strings.
#[derive(Debug, Clone, PartialEq, Eq)]
pub enum Identifier {
    /// An actor on the current system, by id.
    Local(u64),
    /// An actor on the current system, by name.
    LocalNamed(Vec<u8>),
    /// An actor on another system, by id.
    Foreign(Vec<u8>, u64),
    /// An actor on another system, by name.
    ForeignNamed(Vec<u8>, Vec<u8>),
}

/// The mathematical shape of an [`Identifier`]: the same variants over
/// `Seq<u8>` instead of `Vec<u8>`.
pub enum IdentShape {
    Local(u64),
    LocalNamed(Seq<u8>),
    Foreign(Seq<u8>, u64),
    ForeignNamed(Seq<u8>, Seq<u8>),
}

impl View for Identifier {
    type V = IdentShape;

    open spec fn view(&self) -> IdentShape {
        match self {
            Identifier::Local(id) => IdentShape::Local(*id),
            Identifier::LocalNamed(name) => IdentShape::LocalNamed(name@),
            Identifier::Foreign(sys, id) => IdentShape::Foreign(sys@, *id),
            Identifier::ForeignNamed(sys, name) => IdentShape::ForeignNamed(sys@, name@),
        }
    }
}

/// The reason a textual identifier was rejected.
#[derive(Debug, Clone, PartialEq, Eq)]
pub enum IdentifierParseError {
    /// The part after the optional `system:` prefix is empty.
    EmptyTarget,
    /// A `#` was not followed by any digit.
    EmptyNumber,
    /// A `#` was followed by a byte that is not a decimal digit.
    InvalidDigit,
    /// The decimal number after `#` does not fit in 64 bits.
    NumberOverflow,
    /// A second `:` appeared inside the name part.
    SeparatorInName,
}

/// Whether `b` is an ASCII decimal digit.
pub open spec fn is_digit(b: u8) -> bool {
    48 <= b <= 57
}

/// Whether every byte of `s` is an ASCII decimal digit.
pub open spec fn all_digits(s: Seq<u8>) -> bool {
    forall|i: int| 0 <= i < s.len() ==> is_digit(#[trigger] s[i])
}

/// Whether no byte of `s` is `:`.
pub open spec fn colon_free(s: Seq<u8>) -> bool {
    forall|i: int| 0 <= i < s.len() ==> #[trigger] s[i] != COLON
}

/// The value of a big-endian decimal digit string.
pub open spec fn digits_val(s: Seq<u8>) -> int
    decreases s.len(),
{
    if s.len() == 0 {
        0
    } else {
        digits_val(s.drop_last()) * 10 + (s.last() - 48)
    }
}

/// The canonical decimal digit string of `n`: no leading zero.
pub open spec fn spec_digits_of(n: nat) -> Seq<u8>
    decreases n,
{
    if n < 10 {
        seq![(48 + n) as u8]
    } else {
        spec_digits_of(n / 10).push((48 + n % 10) as u8)
    }
}

/// The index of the first `:` in `s`, or `s.len()` if there is none.
pub open spec fn colon_split(s: Seq<u8>) -> int
    decreases s.len(),
{
    if s.len() == 0 {
        0
    } else if s[0] == COLON {
        0
    } else {
        1 + colon_split(s.drop_first())
    }
}

/// The target part of an identifier: either `#` and a number, or a name.
pub enum TargetShape {
    Num(u64),
    Name(Seq<u8>),
}

/// Parses the part after the optional `system:` prefix.
pub open spec fn spec_parse_target(rest: Seq<u8>) -> Result<TargetShape, IdentifierParseError> {
    if rest.len() == 0 {
        Err(IdentifierParseError::EmptyTarget)
    } else if rest[0] == HASH {
        let digits = rest.drop_first();
        if digits.len() == 0 {
            Err(IdentifierParseError::EmptyNumber)
        } else if !all_digits(digits) {
            Err(IdentifierParseError::InvalidDigit)
        } else if digits_val(digits) > u64::MAX {
            Err(IdentifierParseError::NumberOverflow)
        } else {
            Ok(TargetShape::Num(digits_val(digits) as u64))
        }
    } else if !colon_free(rest) {
        Err(IdentifierParseError::SeparatorInName)
    } else {
        Ok(TargetShape::Name(rest))
    }
}

/// Parses a whole textual identifier.
pub open spec fn spec_parse(s: Seq<u8>) -> Result<IdentShape, IdentifierParseError> {
    let c = colon_split(s);
    if c == s.len() {
        match spec_parse_target(s) {
            Ok(TargetShape::Num(n)) => Ok(IdentShape::Local(n)),
            Ok(TargetShape::Name(nm)) => Ok(IdentShape::LocalNamed(nm)),
            Err(e) => Err(e),
        }
    } else {
        let sys = s.take(c);
        let rest = s.skip(c + 1);
        match spec_parse_target(rest) {
            Ok(TargetShape::Num(n)) => Ok(IdentShape::Foreign(sys, n)),
            Ok(TargetShape::Name(nm)) => Ok(IdentShape::ForeignNamed(sys, nm)),
            Err(e) => Err(e),
        }
    }
}

/// The canonical textual form of an identifier.
pub open spec fn spec_print(v: IdentShape) -> Seq<u8> {
    match v {
        IdentShape::Local(n) => seq![HASH] + spec_digits_of(n as nat),
        IdentShape::LocalNamed(nm) => nm,
        IdentShape::Foreign(sys, n) => sys + seq![COLON, HASH] + spec_digits_of(n as nat),
        IdentShape::ForeignNamed(sys, nm) => sys + seq![COLON] + nm,
    }
}

/// Whether a name may stand in an identifier: non-empty, not starting with
/// `#`, and containing no `:`.
pub open spec fn name_wf(nm: Seq<u8>) -> bool {
    nm.len() > 0 && nm[0] != HASH && colon_free(nm)
}

/// Whether an identifier is well formed: its names obey [`name_wf`] and its
/// system part contains no `:`.
pub open spec fn ident_wf(v: IdentShape) -> bool {
    match v {
        IdentShape::Local(_) => true,
        IdentShape::LocalNamed(nm) => name_wf(nm),
        IdentShape::Foreign(sys, _) => colon_free(sys),
        IdentShape::ForeignNamed(sys, nm) => colon_free(sys) && name_wf(nm),
    }
}

/// Whether an identifier addresses an actor on another system than `sys`:
/// it carries a system prefix different from `sys`.  A prefix equal to
/// `sys` denotes the current system, as does no prefix at all.
pub open spec fn spec_is_foreign(sys: Seq<u8>, t: IdentShape) -> bool {
    match t {
        IdentShape::Local(_) => false,
        IdentShape::LocalNamed(_) => false,
        IdentShape::Foreign(s, _) => s != sys,
        IdentShape::ForeignNamed(s, _) => s != sys,
    }
}

/// `colon_split` points at the first `:`, and everything before it is not `:`.
pub proof fn lemma_colon_split_bounds(s: Seq<u8>)
    ensures
        0 <= colon_split(s) <= s.len(),
        forall|k: int| 0 <= k < colon_split(s) ==> #[trigger] s[k] != COLON,
        colon_split(s) < s.len() ==> s[colon_split(s)] == COLON,
    decreases s.len(),
{
    if s.len() == 0 {
    } else if s[0] == COLON {
    } else {
        lemma_colon_split_bounds(s.drop_first());
        assert forall|k: int| 0 <= k < colon_split(s) implies #[trigger] s[k] != COLON by {
            if k > 0 {
                assert(s.drop_first()[k - 1] != COLON);
                assert(s[k] == s.drop_first()[k - 1]);
            }
        }
        if colon_split(s) < s.len() {
            assert(s[colon_split(s)] == s.drop_first()[colon_split(s.drop_first())]);
        }
    }
}

/// Any index with the two properties of [`lemma_colon_split_bounds`] is
/// `colon_split(s)`.
pub proof fn lemma_colon_split_unique(s: Seq<u8>, c: int)
    requires
        0 <= c <= s.len(),
        forall|k: int| 0 <= k < c ==> #[trigger] s[k] != COLON,
        c < s.len() ==> s[c] == COLON,
    ensures
        colon_split(s) == c,
    decreases s.len(),
{
    if s.len() == 0 {
    } else if s[0] == COLON {
        assert(c == 0);
    } else {
        assert(c >= 1);
        let t = s.drop_first();
        assert forall|k: int| 0 <= k < c - 1 implies #[trigger] t[k] != COLON by {
            assert(t[k] == s[k + 1]);
        }
        assert(c - 1 < t.len() ==> t[c - 1] == COLON);
        lemma_colon_split_unique(t, c - 1);
    }
}

/// A colon-free sequence has no split point: `colon_split` is its length.
pub proof fn lemma_colon_split_free(s: Seq<u8>)
    requires
        colon_free(s),
    ensures
        colon_split(s) == s.len(),
{
    lemma_colon_split_unique(s, s.len() as int);
}

/// The digit string of `n` is non-empty, all digits, and evaluates back to
/// `n`.
pub proof fn lemma_digits_of_val(n: nat)
    ensures
        spec_digits_of(n).len() > 0,
        all_digits(spec_digits_of(n)),
        digits_val(spec_digits_of(n)) == n,
    decreases n,
{
    if n < 10 {
        let s = spec_digits_of(n);
        assert(s.len() == 1);
        assert(s.drop_last() =~= Seq::<u8>::empty());
        assert(digits_val(Seq::<u8>::empty()) == 0);
        assert(digits_val(s) == digits_val(s.drop_last()) * 10 + (s.last() - 48));
        assert(digits_val(s) == (s.last() - 48));
    } else {
        lemma_digits_of_val(n / 10);
        let a = spec_digits_of(n / 10);
        let d = (48 + n % 10) as u8;
        let s = a.push(d);
        assert(s.drop_last() =~= a);
        assert(s.last() == d);
        assert(digits_val(s) == digits_val(a) * 10 + (d - 48));
        assert(forall|i: int| 0 <= i < s.len() ==> is_digit(#[trigger] s[i])) by {
            assert(forall|i: int| 0 <= i < a.len() ==> is_digit(#[trigger] a[i]));
            assert(s[s.len() - 1] == d);
            assert(forall|i: int| 0 <= i < a.len() ==> s[i] == a[i]);
        }
    }
}

/// A digit string evaluates to a non-negative value.
pub proof fn lemma_digits_val_nonneg(s: Seq<u8>)
    requires
        all_digits(s),
    ensures
        digits_val(s) >= 0,
    decreases s.len(),
{
    if s.len() > 0 {
        assert(all_digits(s.drop_last())) by {
            assert(forall|i: int| 0 <= i < s.len() - 1 ==> s.drop_last()[i] == s[i]);
        }
        lemma_digits_val_nonneg(s.drop_last());
    }
}

/// Extending a digit string on the right never decreases its value.
pub proof fn lemma_digits_val_prefix_le(s: Seq<u8>, i: int)
    requires
        all_digits(s),
        0 <= i <= s.len(),
    ensures
        digits_val(s.take(i)) <= digits_val(s),
    decreases s.len() - i,
{
    if i == s.len() {
        assert(s.take(i) =~= s);
    } else {
        lemma_digits_val_prefix_le(s, i + 1);
        let t = s.take(i + 1);
        assert(t.drop_last() =~= s.take(i));
        assert(t.last() == s[i]);
        assert(all_digits(s.take(i))) by {
            assert(forall|k: int| 0 <= k < i ==> s.take(i)[k] == s[k]);
        }
        lemma_digits_val_nonneg(s.take(i));
        assert(digits_val(t) == digits_val(s.take(i)) * 10 + (s[i] - 48));
        assert(digits_val(s.take(i)) <= digits_val(t));
    }
}

/// If the part before the first `:` of `s` is `a`, then `colon_split(s)` is
/// `a.len()`.
pub proof fn lemma_colon_split_concat(a: Seq<u8>, tail: Seq<u8>)
    requires
        colon_free(a),
    ensures
        colon_split(a + seq![COLON] + tail) == a.len(),
{
    let s = a + seq![COLON] + tail;
    assert(forall|k: int| 0 <= k < a.len() ==> #[trigger] s[k] == a[k]);
    assert(s[a.len() as int] == COLON);
    lemma_colon_split_unique(s, a.len() as int);
}

/// Parsing the target part of a printed number gives the number back.
proof fn lemma_target_num_round_trip(n: u64)
    ensures
        spec_parse_target(seq![HASH] + spec_digits_of(n as nat)) == Ok::<TargetShape,
            IdentifierParseError>(TargetShape::Num(n)),
{
    let d = spec_digits_of(n as nat);
    lemma_digits_of_val(n as nat);
    let rest = seq![HASH] + d;
    assert(rest[0] == HASH);
    assert(rest.drop_first() =~= d);
    assert(digits_val(d) == n as int);
}

/// Parsing the target part of a printed well-formed name gives the name back.
proof fn lemma_target_name_round_trip(nm: Seq<u8>)
    requires
        name_wf(nm),
    ensures
        spec_parse_target(nm) == Ok::<TargetShape, IdentifierParseError>(TargetShape::Name(nm)),
{
}

/// The identifier codec round trip: parsing the canonical text of any
/// well-formed identifier yields that identifier again.
pub proof fn lemma_parse_print_round_trip(v: IdentShape)
    requires
        ident_wf(v),
    ensures
        spec_parse(spec_print(v)) == Ok::<IdentShape, IdentifierParseError>(v),
{
    match v {
        IdentShape::Local(n) => {
            let d = spec_digits_of(n as nat);
            lemma_digits_of_val(n as nat);
            let s = seq![HASH] + d;
            assert(colon_free(s)) by {
                assert(forall|i: int| 0 <= i < d.len() ==> is_digit(#[trigger] d[i]));
                assert(forall|i: int| 1 <= i < s.len() ==> #[trigger] s[i] == d[i - 1]);
            }
            lemma_colon_split_free(s);
            lemma_target_num_round_trip(n);
        },
        IdentShape::LocalNamed(nm) => {
            lemma_colon_split_free(nm);
            lemma_target_name_round_trip(nm);
        },
        IdentShape::Foreign(sys, n) => {
            let d = spec_digits_of(n as nat);
            lemma_digits_of_val(n as nat);
            let tail = seq![HASH] + d;
            let s = sys + seq![COLON, HASH] + d;
            assert(s =~= sys + seq![COLON] + tail);
            lemma_colon_split_concat(sys, tail);
            let c = colon_split(s);
            assert(c == sys.len());
            assert(s.take(c) =~= sys);
            assert(s.skip(c + 1) =~= tail);
            lemma_target_num_round_trip(n);
        },
        IdentShape::ForeignNamed(sys, nm) => {
            let s = sys + seq![COLON] + nm;
            lemma_colon_split_concat(sys, nm);
            let c = colon_split(s);
            assert(c == sys.len());
            assert(s.take(c) =~= sys);
            assert(s.skip(c + 1) =~= nm);
            lemma_target_name_round_trip(nm);
        },
    }
}

/// The shape of a parse result: `Ok` results are taken to their views.
pub open spec fn result_shape(r: Result<Identifier, IdentifierParseError>) -> Result<
    IdentShape,
    IdentifierParseError,
> {
    match r {
        Ok(v) => Ok(v@),
        Err(e) => Err(e),
    }
}

/// Returns the index of the first `:` in `s`, or `s.len()` if there is none.
fn find_colon(s: &[u8]) -> (c: usize)
    ensures
        c as int == colon_split(s@),
{
    let n: usize = s.len();
    let mut i: usize = 0;
    while i < n
        invariant
            0 <= i <= n,
            n == s@.len(),
            forall|k: int| 0 <= k < i ==> #[trigger] s@[k] != COLON,
        decreases n - i,
    {
        if *vstd::slice::slice_index_get(s, i) == COLON {
            proof {
                lemma_colon_split_unique(s@, i as int);
            }
            return i;
        }
        i = i + 1;
    }
    proof {
        lemma_colon_split_unique(s@, n as int);
    }
    n
}

/// Copies the bytes of `s` between `from` and `to` into a fresh vector.
fn copy_range(s: &[u8], from: usize, to: usize) -> (out: Vec<u8>)
    requires
        0 <= from <= to <= s@.len(),
    ensures
        out@ == s@.subrange(from as int, to as int),
{
    let mut out: Vec<u8> = Vec::new();
    let mut i: usize = from;
    while i < to
        invariant
            from <= i <= to <= s@.len(),
            out@ == s@.subrange(from as int, i as int),
        decreases to - i,
    {
        out.push(*vstd::slice::slice_index_get(s, i));
        proof {
            assert(out@ =~= s@.subrange(from as int, i + 1 as int));
        }
        i = i + 1;
    }
    out
}

/// Parses the decimal digits of `s` between `from` and `s.len()`.
/// Assumes the range was already checked to hold digits only.
fn parse_number(s: &[u8], from: usize) -> (r: Result<u64, IdentifierParseError>)
    requires
        from < s@.len(),
        all_digits(s@.skip(from as int)),
    ensures
        ({
            let digits = s@.skip(from as int);
            match r {
                Ok(n) => digits_val(digits) <= u64::MAX && n as int == digits_val(digits),
                Err(e) => e == IdentifierParseError::NumberOverflow && digits_val(digits)
                    > u64::MAX,
            }
        }),
{
    let ghost digits = s@.skip(from as int);
    let n: usize = s.len();
    let mut acc: u64 = 0;
    let mut i: usize = from;
    proof {
        assert(digits.take(0) =~= Seq::<u8>::empty());
    }
    while i < n
        invariant
            from <= i <= n,
            n == s@.len(),
            digits == s@.skip(from as int),
            all_digits(digits),
            acc as int == digits_val(digits.take(i - from)),
        decreases n - i,
    {
        let b = *vstd::slice::slice_index_get(s, i);
        proof {
            assert(digits[i - from] == s@[i as int]);
            assert(is_digit(b));
        }
        let d: u64 = (b - 48) as u64;
        let wide: u128 = acc as u128 * 10 + d as u128;
        proof {
            let t = digits.take(i + 1 - from);
            assert(t.drop_last() =~= digits.take(i - from));
            assert(t.last() == digits[i - from]);
            assert(digits_val(t) == digits_val(digits.take(i - from)) * 10 + (b - 48));
        }
        if wide > u64::MAX as u128 {
            proof {
                lemma_digits_val_prefix_le(digits, i + 1 - from);
            }
            return Err(IdentifierParseError::NumberOverflow);
        }
        acc = wide as u64;
        i = i + 1;
    }
    proof {
        assert(digits.take(n - from) =~= digits);
    }
    Ok(acc)
}

impl Identifier {
    /// Copies the identifier; the copy has the same view.
    pub fn duplicate(&self) -> (r: Identifier)
        ensures
            r@ == self@,
    {
        match self {
            Identifier::Local(id) => Identifier::Local(*id),
            Identifier::LocalNamed(name) => Identifier::LocalNamed(
                vstd::slice::slice_to_vec(name.as_slice()),
            ),
            Identifier::Foreign(sys, id) => Identifier::Foreign(
                vstd::slice::slice_to_vec(sys.as_slice()),
                *id,
            ),
            Identifier::ForeignNamed(sys, name) => Identifier::ForeignNamed(
                vstd::slice::slice_to_vec(sys.as_slice()),
                vstd::slice::slice_to_vec(name.as_slice()),
            ),
        }
    }

    /// Parses a textual identifier.  The result is exactly what
    /// [`spec_parse`] gives on the input, including which error is returned
    /// for which malformed input.
    #[verifier::loop_isolation(false)]
    pub fn parse(input: &[u8]) -> (r: Result<Identifier, IdentifierParseError>)
        ensures
            result_shape(r) == spec_parse(input@),
    {
        let len: usize = input.len();
        let c = find_colon(input);
        proof {
            lemma_colon_split_bounds(input@);
        }
        let has_sys = c < len;
        let t0: usize = if has_sys {
            c + 1
        } else {
            0
        };
        let ghost rest = if has_sys {
            input@.skip(c + 1)
        } else {
            input@
        };
        proof {
            if !has_sys {
                assert(rest =~= input@.skip(0));
            }
        }
        if t0 == len {
            return Err(IdentifierParseError::EmptyTarget);
        }
        let first = *vstd::slice::slice_index_get(input, t0);
        proof {
            assert(rest[0] == input@[t0 as int]);
        }
        if first == HASH {
            // A `#` target: all remaining bytes must be decimal digits.
            if t0 + 1 == len {
                proof {
                    assert(rest.drop_first() =~= input@.skip(t0 + 1));
                }
                return Err(IdentifierParseError::EmptyNumber);
            }
            let ghost digits = input@.skip(t0 + 1);
            proof {
                assert(rest.drop_first() =~= digits);
            }
            let mut k: usize = t0 + 1;
            while k < len
                invariant
                    t0 + 1 <= k <= len,
                    len == input@.len(),
                    digits == input@.skip(t0 + 1),
                    forall|j: int| t0 + 1 <= j < k ==> is_digit(#[trigger] input@[j]),
                decreases len - k,
            {
                let b = *vstd::slice::slice_index_get(input, k);
                if b < 48 || b > 57 {
                    proof {
                        assert(digits[k - (t0 + 1)] == input@[k as int]);
                        assert(!all_digits(digits));
                    }
                    return Err(IdentifierParseError::InvalidDigit);
                }
                k = k + 1;
            }
            proof {
                assert(forall|j: int| 0 <= j < digits.len() ==> #[trigger] digits[j] == input@[j
                    + t0 + 1]);
                assert(all_digits(digits));
            }
            match parse_number(input, t0 + 1) {
                Ok(n) => {
                    if has_sys {
                        let sys = copy_range(input, 0, c);
                        proof {
                            assert(input@.subrange(0, c as int) =~= input@.take(c as int));
                        }
                        Ok(Identifier::Foreign(sys, n))
                    } else {
                        Ok(Identifier::Local(n))
                    }
                },
                Err(e) => Err(e),
            }
        } else {
            // A name target: no further `:` may appear.
            let mut k: usize = t0;
            while k < len
                invariant
                    t0 <= k <= len,
                    len == input@.len(),
                    rest == input@.skip(t0 as int),
                    forall|j: int| t0 <= j < k ==> #[trigger] input@[j] != COLON,
                decreases len - k,
            {
                let b = *vstd::slice::slice_index_get(input, k);
                if b == COLON {
                    proof {
                        assert(rest[k - t0] == input@[k as int]);
                        assert(!colon_free(rest));
                    }
                    return Err(IdentifierParseError::SeparatorInName);
                }
                k = k + 1;
            }
            proof {
                assert(forall|j: int| 0 <= j < rest.len() ==> #[trigger] rest[j] == input@[j + t0]);
                assert(colon_free(rest));
            }
            let name = copy_range(input, t0, len);
            proof {
                assert(input@.subrange(t0 as int, len as int) =~= rest);
            }
            if has_sys {
                let sys = copy_range(input, 0, c);
                proof {
                    assert(input@.subrange(0, c as int) =~= input@.take(c as int));
                }
                Ok(Identifier::ForeignNamed(sys, name))
            } else {
                Ok(Identifier::LocalNamed(name))
            }
        }
    }
}

/// Appends the canonical decimal digits of `n` to `out`.
#[verifier::loop_isolation(false)]
fn push_digits(out: &mut Vec<u8>, n: u64)
    ensures
        final(out)@ == old(out)@ + spec_digits_of(n as nat),
{
    let mut tmp: Vec<u8> = Vec::new();
    let mut cur: u64 = n;
    proof {
        assert(spec_digits_of(n as nat) + Seq::<u8>::empty() =~= spec_digits_of(n as nat));
    }
    loop
        invariant
            tmp@.len() == 0 ==> cur == n,
            tmp@.len() > 0 && cur > 0 ==> spec_digits_of(n as nat) == spec_digits_of(cur as nat)
                + tmp@,
            tmp@.len() > 0 && cur == 0 ==> spec_digits_of(n as nat) == tmp@,
            cur <= n,
        decreases cur, (if tmp@.len() == 0 { 1int } else { 0int }),
    {
        if cur == 0 && tmp.len() > 0 {
            break;
        }
        let d: u8 = (cur % 10) as u8 + 48;
        let next: u64 = cur / 10;
        proof {
            assert(spec_digits_of(n as nat) == spec_digits_of(cur as nat) + tmp@);
            if next > 0 {
                assert(spec_digits_of(cur as nat) == spec_digits_of((cur / 10) as nat).push(
                    (48 + cur as nat % 10) as u8,
                ));
                assert(spec_digits_of((cur / 10) as nat).push(d) =~= spec_digits_of(
                    (cur / 10) as nat,
                ) + seq![d]);
                assert(spec_digits_of(cur as nat) + tmp@ =~= spec_digits_of((cur / 10) as nat) + (
                seq![d] + tmp@));
            } else {
                assert(cur < 10);
                assert(spec_digits_of(cur as nat) =~= seq![d]);
            }
        }
        tmp.insert(0, d);
        cur = next;
    }
    out.append(&mut tmp);
}

impl Identifier {
    /// Renders the identifier in its canonical textual form, exactly as
    /// [`spec_print`] states it.
    pub fn print(&self) -> (r: Vec<u8>)
        ensures
            r@ == spec_print(self@),
    {
        let mut out: Vec<u8> = Vec::new();
        match self {
            Identifier::Local(id) => {
                out.push(HASH);
                push_digits(&mut out, *id);
                proof {
                    assert(out@ =~= seq![HASH] + spec_digits_of(*id as nat));
                }
            },
            Identifier::LocalNamed(name) => {
                let mut body = vstd::slice::slice_to_vec(name.as_slice());
                out.append(&mut body);
                proof {
                    assert(out@ =~= name@);
                }
            },
            Identifier::Foreign(sys, id) => {
                let mut head = vstd::slice::slice_to_vec(sys.as_slice());
                out.append(&mut head);
                out.push(COLON);
                out.push(HASH);
                push_digits(&mut out, *id);
                proof {
                    assert(out@ =~= sys@ + seq![COLON, HASH] + spec_digits_of(*id as nat));
                }
            },
            Identifier::ForeignNamed(sys, name) => {
                let mut head = vstd::slice::slice_to_vec(sys.as_slice());
                out.append(&mut head);
                out.push(COLON);
                let mut body = vstd::slice::slice_to_vec(name.as_slice());
                out.append(&mut body);
                proof {
                    assert(out@ =~= sys@ + seq![COLON] + name@);
                }
            },
        }
        out
    }
}

} // verus!
