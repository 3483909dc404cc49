use vstd::prelude::*;

use crate::bytes::contains_byte;
use vstd::arithmetic::div_mod::lemma_fundamental_div_mod;

verus! {

/// How the renamer treats a file's extension: replace it with a fixed
/// suffix, or keep the suffix the file already carries.
pub enum ExtensionPolicy {
    Fixed(Vec<u8>),
    Preserve,
}

/// An ASCII decimal digit.
pub open spec fn is_digit(b: u8) -> bool {
    48 <= b && b <= 57
}

/// Every byte of the string is an ASCII decimal digit.
pub open spec fn all_digits(s: Seq<u8>) -> bool {
    forall|i: int| 0 <= i < s.len() ==> is_digit(s[i])
}

/// The shortest decimal numeral of `n`, as ASCII bytes.
pub open spec fn numeral(n: nat) -> Seq<u8>
    decreases n,
{
    if n < 10 {
        seq![(48 + n) as u8]
    } else {
        numeral(n / 10).push((48 + n % 10) as u8)
    }
}

/// `k` ASCII zero bytes.
pub open spec fn zero_pad(k: nat) -> Seq<u8> {
    Seq::new(k, |i: int| 48u8)
}

/// The decimal numeral of `n`, left-padded with zeros to at least three
/// digits: the shape of every sequence name the renamer hands out.
pub open spec fn padded(n: nat) -> Seq<u8> {
    if numeral(n).len() >= 3 {
        numeral(n)
    } else {
        zero_pad((3 - numeral(n).len()) as nat) + numeral(n)
    }
}

/// The number a digit string denotes.
pub open spec fn digits_val(s: Seq<u8>) -> nat
    decreases s.len(),
{
    if s.len() == 0 {
        0
    } else {
        digits_val(s.drop_last()) * 10 + ((s.last() - 48) as nat)
    }
}

pub proof fn lemma_numeral_digits(n: nat)
    ensures
        all_digits(numeral(n)),
        numeral(n).len() >= 1,
    decreases n,
{
    if n >= 10 {
        lemma_numeral_digits(n / 10);
        assert forall|i: int| 0 <= i < numeral(n).len() implies is_digit(numeral(n)[i]) by {
            if i < numeral(n / 10).len() {
                assert(numeral(n)[i] == numeral(n / 10)[i]);
            }
        }
    }
}

pub proof fn lemma_digits_val_numeral(n: nat)
    ensures
        digits_val(numeral(n)) == n,
    decreases n,
{
    if n < 10 {
        reveal_with_fuel(digits_val, 2);
        assert(numeral(n).drop_last() =~= Seq::<u8>::empty());
        assert(numeral(n).last() == (48 + n) as u8);
    } else {
        lemma_digits_val_numeral(n / 10);
        assert(numeral(n) == numeral(n / 10).push((48 + n % 10) as u8));
        assert(numeral(n).drop_last() =~= numeral(n / 10));
        assert(numeral(n).last() == (48 + n % 10) as u8);
        assert(0 <= n % 10 < 10);
        assert(digits_val(numeral(n)) == digits_val(numeral(n / 10)) * 10 + n % 10);
        lemma_fundamental_div_mod(n as int, 10);
    }
}

proof fn lemma_digits_val_all_zero(z: Seq<u8>)
    requires
        forall|i: int| 0 <= i < z.len() ==> z[i] == 48,
    ensures
        digits_val(z) == 0,
    decreases z.len(),
{
    if z.len() > 0 {
        lemma_digits_val_all_zero(z.drop_last());
    }
}

proof fn lemma_digits_val_prefix_zeros(z: Seq<u8>, s: Seq<u8>)
    requires
        forall|i: int| 0 <= i < z.len() ==> z[i] == 48,
    ensures
        digits_val(z + s) == digits_val(s),
    decreases s.len(),
{
    if s.len() == 0 {
        assert(z + s =~= z);
        lemma_digits_val_all_zero(z);
    } else {
        assert((z + s).drop_last() =~= z + s.drop_last());
        assert((z + s).last() == s.last());
        lemma_digits_val_prefix_zeros(z, s.drop_last());
    }
}

pub proof fn lemma_padded_val(n: nat)
    ensures
        digits_val(padded(n)) == n,
        all_digits(padded(n)),
        padded(n).len() >= 3,
{
    lemma_numeral_digits(n);
    lemma_digits_val_numeral(n);
    if numeral(n).len() < 3 {
        let k = (3 - numeral(n).len()) as nat;
        lemma_digits_val_prefix_zeros(zero_pad(k), numeral(n));
        assert forall|i: int| 0 <= i < padded(n).len() implies is_digit(padded(n)[i]) by {
            if i < k {
                assert(padded(n)[i] == 48);
            } else {
                assert(padded(n)[i] == numeral(n)[i - k]);
            }
        }
    }
}

/// Two distinct counters never share a padded numeral.
pub proof fn lemma_padded_injective(a: nat, b: nat)
    requires
        a != b,
    ensures
        padded(a) != padded(b),
{
    lemma_padded_val(a);
    lemma_padded_val(b);
    if padded(a) == padded(b) {
        assert(digits_val(padded(a)) == digits_val(padded(b)));
    }
}

/// An extension suffix is empty or begins with an ASCII dot.
pub open spec fn ext_ok(e: Seq<u8>) -> bool {
    e.len() == 0 || e[0] == 46
}

/// The extension of a file name: the suffix from the last dot on, or the
/// empty string when the name holds no dot.
pub open spec fn ext_of(s: Seq<u8>) -> Seq<u8>
    decreases s.len(),
{
    if s.len() == 0 {
        Seq::<u8>::empty()
    } else if s[0] == 46 && !contains_byte(s.drop_first(), 46) {
        s
    } else {
        ext_of(s.drop_first())
    }
}

pub proof fn lemma_ext_of_ok(s: Seq<u8>)
    ensures
        ext_ok(ext_of(s)),
    decreases s.len(),
{
    if s.len() > 0 && !(s[0] == 46 && !contains_byte(s.drop_first(), 46)) {
        lemma_ext_of_ok(s.drop_first());
    }
}

/// When the last dot of `s` stands at `i`, the extension is the suffix from `i`.
proof fn lemma_ext_at(s: Seq<u8>, i: int)
    requires
        0 <= i < s.len(),
        s[i] == 46,
        forall|j: int| i < j < s.len() ==> s[j] != 46,
    ensures
        ext_of(s) == s.subrange(i, s.len() as int),
    decreases i,
{
    if i == 0 {
        assert(!contains_byte(s.drop_first(), 46)) by {
            assert forall|m: int| 0 <= m < s.drop_first().len() implies s.drop_first()[m] != 46 by {
                assert(s.drop_first()[m] == s[m + 1]);
            }
        }
        assert(ext_of(s) == s);
        assert(s.subrange(0, s.len() as int) =~= s);
    } else {
        if s[0] == 46 {
            assert(contains_byte(s.drop_first(), 46)) by {
                assert(s.drop_first()[i - 1] == 46);
            }
        }
        assert(ext_of(s) == ext_of(s.drop_first()));
        assert forall|j: int| i - 1 < j < s.drop_first().len() implies s.drop_first()[j] != 46 by {
            assert(s.drop_first()[j] == s[j + 1]);
        }
        lemma_ext_at(s.drop_first(), i - 1);
        assert(s.drop_first().subrange(i - 1, s.drop_first().len() as int) =~= s.subrange(
            i,
            s.len() as int,
        ));
    }
}

proof fn lemma_ext_none(s: Seq<u8>)
    requires
        forall|j: int| 0 <= j < s.len() ==> s[j] != 46,
    ensures
        ext_of(s) == Seq::<u8>::empty(),
    decreases s.len(),
{
    if s.len() > 0 {
        assert forall|j: int| 0 <= j < s.drop_first().len() implies s.drop_first()[j] != 46 by {
            assert(s.drop_first()[j] == s[j + 1]);
        }
        lemma_ext_none(s.drop_first());
    }
}

/// The extension a policy assigns to a file with original name `orig`.
pub open spec fn policy_ext(p: ExtensionPolicy, orig: Seq<u8>) -> Seq<u8> {
    match p {
        ExtensionPolicy::Fixed(e) => e@,
        ExtensionPolicy::Preserve => ext_of(orig),
    }
}

/// A fixed extension must be empty or dot-led, so that a sequence name
/// can always be read back out of a target name.
pub open spec fn policy_ok(p: ExtensionPolicy) -> bool {
    match p {
        ExtensionPolicy::Fixed(e) => ext_ok(e@),
        ExtensionPolicy::Preserve => true,
    }
}

/// The name the renamer assigns to the file in position `i` (counted from 1)
/// whose original name was `orig`.
pub open spec fn spec_target_name(i: nat, orig: Seq<u8>, p: ExtensionPolicy) -> Seq<u8> {
    padded(i) + policy_ext(p, orig)
}

/// A digit stem followed by a well-formed extension determines the stem.
proof fn lemma_digit_stem_determined(a: Seq<u8>, e: Seq<u8>, b: Seq<u8>, f: Seq<u8>)
    requires
        all_digits(a),
        all_digits(b),
        ext_ok(e),
        ext_ok(f),
        a.len() >= 1,
        b.len() >= 1,
        a + e == b + f,
    ensures
        a == b,
{
    assert((a + e).len() == (b + f).len());
    if a.len() < b.len() {
        assert(e.len() > 0);
        assert((a + e)[a.len() as int] == e[0]);
        assert((b + f)[a.len() as int] == b[a.len() as int]);
        assert(is_digit(b[a.len() as int]));
        assert(false);
    } else if b.len() < a.len() {
        assert(f.len() > 0);
        assert((b + f)[b.len() as int] == f[0]);
        assert((a + e)[b.len() as int] == a[b.len() as int]);
        assert(is_digit(a[b.len() as int]));
        assert(false);
    } else {
        assert forall|i: int| 0 <= i < a.len() implies a[i] == b[i] by {
            assert((a + e)[i] == a[i]);
            assert((b + f)[i] == b[i]);
        }
        assert(a =~= b);
    }
}

/// Two distinct positions never receive the same target name, whatever the
/// original names were: the law behind "no name reused and no gaps".
pub proof fn lemma_target_names_distinct(
    i: nat,
    j: nat,
    oi: Seq<u8>,
    oj: Seq<u8>,
    p: ExtensionPolicy,
)
    requires
        i != j,
        policy_ok(p),
    ensures
        spec_target_name(i, oi, p) != spec_target_name(j, oj, p),
{
    lemma_padded_val(i);
    lemma_padded_val(j);
    lemma_ext_of_ok(oi);
    lemma_ext_of_ok(oj);
    if spec_target_name(i, oi, p) == spec_target_name(j, oj, p) {
        lemma_digit_stem_determined(padded(i), policy_ext(p, oi), padded(j), policy_ext(p, oj));
        lemma_padded_injective(i, j);
    }
}

/// The shortest decimal numeral of `n`, as a byte vector.
fn numeral_vec(n: u64) -> (r: Vec<u8>)
    ensures
        r@ == numeral(n as nat),
    decreases n,
{
    if n < 10 {
        let mut v: Vec<u8> = Vec::new();
        v.push(48 + (n as u8));
        proof {
            assert(v@ =~= numeral(n as nat));
        }
        v
    } else {
        let mut v = numeral_vec(n / 10);
        v.push(48 + ((n % 10) as u8));
        proof {
            assert(v@ =~= numeral(n as nat));
        }
        v
    }
}

/// The zero-padded sequence name of counter `n`: `1` becomes `001`.
pub fn seq_name(n: u64) -> (r: Vec<u8>)
    ensures
        r@ == padded(n as nat),
{
    let d = numeral_vec(n);
    let mut r: Vec<u8> = Vec::new();
    while r.len() + d.len() < 3
        invariant
            d@ == numeral(n as nat),
            d@.len() >= 3 ==> r@.len() == 0,
            d@.len() < 3 ==> r@.len() + d@.len() <= 3,
            forall|i: int| 0 <= i < r@.len() ==> r@[i] == 48,
        decreases 3 - r.len(),
    {
        r.push(48);
    }
    proof {
        lemma_numeral_digits(n as nat);
    }
    let mut dd = d;
    r.append(&mut dd);
    proof {
        if numeral(n as nat).len() >= 3 {
            assert(r@ =~= padded(n as nat));
        } else {
            assert(r@.take(r@.len() - numeral(n as nat).len()) =~= zero_pad(
                (3 - numeral(n as nat).len()) as nat,
            ));
            assert(r@ =~= padded(n as nat));
        }
    }
    r
}

/// The extension of `name`: the bytes from its last dot on, or empty.
pub fn extension_of(name: &Vec<u8>) -> (r: Vec<u8>)
    ensures
        r@ == ext_of(name@),
{
    let n: usize = name.len();
    let mut k: usize = n;
    while k > 0
        invariant
            k <= n == name@.len(),
            forall|j: int| k <= j < n ==> name@[j] != 46,
        decreases k,
    {
        if name[k - 1] == 46 {
            let mut r: Vec<u8> = Vec::new();
            let mut j: usize = k - 1;
            while j < n
                invariant
                    1 <= k,
                    k - 1 <= j <= n == name@.len(),
                    r@ =~= name@.subrange(k - 1, j as int),
                decreases n - j,
            {
                r.push(name[j]);
                proof {
                    assert(r@ =~= name@.subrange(k - 1, j + 1));
                }
                j = j + 1;
            }
            proof {
                lemma_ext_at(name@, k - 1);
            }
            return r;
        }
        k = k - 1;
    }
    proof {
        lemma_ext_none(name@);
    }
    Vec::new()
}

/// The name assigned to position `i` (counted from 1) under `p`, given the
/// file's original name.
pub fn target_name(i: u64, orig: &Vec<u8>, p: &ExtensionPolicy) -> (r: Vec<u8>)
    ensures
        r@ == spec_target_name(i as nat, orig@, *p),
{
    let mut r = seq_name(i);
    match p {
        ExtensionPolicy::Fixed(e) => {
            let mut ext = crate::bytes::clone_bytes(e);
            r.append(&mut ext);
        },
        ExtensionPolicy::Preserve => {
            let mut ext = extension_of(orig);
            r.append(&mut ext);
        },
    }
    r
}

} // verus!
