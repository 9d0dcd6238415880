use vstd::prelude::*;
use vstd::string::StringSliceAdditionalSpecFns;

verus! {

broadcast use vstd::seq_lib::group_seq_properties;

/// An ASCII letter or digit.
pub open spec fn is_alphanumeric(b: u8) -> bool {
    (48 <= b <= 57) || (65 <= b <= 90) || (97 <= b <= 122)
}

/// The value of bytes read as a big-endian number.
pub open spec fn be_value(b: Seq<u8>) -> nat
    decreases b.len(),
{
    if b.len() == 0 {
        0
    } else {
        be_value(b.drop_last()) * 256 + b.last() as nat
    }
}

/// Byte `i` (from the most significant) of a 16-byte identifier.
pub open spec fn byte_at(v: u128, i: int) -> u8 {
    ((v >> ((120 - 8 * i) as u128)) & 0xff) as u8
}

/// The 16 characters of an identifier, one per byte.
pub open spec fn id_chars(v: u128) -> Seq<char> {
    Seq::new(16, |i: int| byte_at(v, i) as char)
}

/// Relies on rand's `Alphanumeric` distribution: each sampled byte is one of
/// `A-Z`, `a-z`, `0-9`.
#[verifier::external_body]
fn random_alphanumeric(n: usize) -> (r: Vec<u8>)
    ensures
        r@.len() == n,
        forall|i: int| 0 <= i < n ==> is_alphanumeric(#[trigger] r@[i]),
{
    rand::Rng::sample_iter(rand::thread_rng(), &rand::distributions::Alphanumeric).take(n).collect()
}

/// Relies on `String::push`: appends one character.
#[verifier::external_body]
fn push_char(s: &mut String, c: char)
    ensures
        final(s)@ == old(s)@.push(c),
{
    s.push(c);
}

/// A 16-byte identifier, ordered as its bytes are, lexicographically.
#[derive(Clone, Copy, PartialEq, Eq, Structural, Hash, Debug, PartialOrd, Ord)]
pub struct Id(pub u128);

impl Id {
    /// The all-zero identifier.
    pub fn zero() -> (r: Id)
        ensures
            r.0 == 0,
            forall|i: int| 0 <= i < 16 ==> byte_at(r.0, i) == 0,
    {
        assert forall|i: int| 0 <= i < 16 implies byte_at(0, i) == 0 by {
            let s = (120 - 8 * i) as u128;
            assert((0u128 >> s) & 0xff == 0) by (bit_vector);
        }
        Id(0)
    }

    /// The bytes of the identifier, as characters.
    pub fn as_str(&self) -> (r: String)
        ensures
            r@ == id_chars(self.0),
    {
        let mut s = String::new();
        let mut i: u32 = 0;
        while i < 16
            invariant
                i <= 16,
                s@ == id_chars(self.0).subrange(0, i as int),
            decreases 16 - i,
        {
            let b = ((self.0 >> ((120 - 8 * i) as u128)) & 0xff) as u8;
            proof {
                assert(b == byte_at(self.0, i as int));
                assert(id_chars(self.0).subrange(0, i + 1) =~= id_chars(self.0).subrange(
                    0,
                    i as int,
                ).push(b as char));
            }
            push_char(&mut s, b as char);
            i += 1;
        }
        proof {
            assert(id_chars(self.0).subrange(0, 16) =~= id_chars(self.0));
        }
        s
    }

    /// The identifier of 16 bytes, read big-endian.
    pub fn from_bytes(b: &[u8]) -> (r: Option<Id>)
        ensures
            b@.len() == 16 ==> r.is_some() && r.unwrap().0 == be_value(b@),
            b@.len() != 16 ==> r.is_none(),
    {
        if b.len() != 16 {
            return None;
        }
        let mut v: u128 = 0;
        let mut i: usize = 0;
        while i < 16
            invariant
                b@.len() == 16,
                i <= 16,
                v == be_value(b@.subrange(0, i as int)),
                be_value(b@.subrange(0, i as int)) < pow256(i as nat),
            decreases 16 - i,
        {
            proof {
                let pre = b@.subrange(0, i as int);
                assert(b@.subrange(0, i + 1).drop_last() =~= pre);
                lemma_pow256_bound(i as nat);
                lemma_pow256_small(i as nat);
                let x = b@[i as int] as nat;
                let p = pow256(i as nat);
                assert(v * 256 + x < p * 256) by (nonlinear_arith)
                    requires v < p, x < 256;
                assert(v * 256 + x < 0x1_0000_0000_0000_0000_0000_0000_0000_0000);
                assert(pow256((i + 1) as nat) == p * 256);
            }
            v = v * 256 + b[i] as u128;
            i += 1;
        }
        proof {
            assert(b@.subrange(0, 16) =~= b@);
        }
        Some(Id(v))
    }

    /// The identifier written by a 16-byte string.
    pub fn parse(s: &str) -> (r: Option<Id>)
        ensures
            s.spec_bytes().len() == 16 ==> r.is_some() && r.unwrap().0 == be_value(s.spec_bytes()),
            s.spec_bytes().len() != 16 ==> r.is_none(),
    {
        Id::from_bytes(s.as_bytes())
    }

    /// A fresh identifier of 16 random letters and digits.
    pub fn gen() -> (r: Id)
        ensures
            exists|b: Seq<u8>|
                b.len() == 16 && (forall|i: int| 0 <= i < 16 ==> is_alphanumeric(#[trigger] b[i]))
                    && r.0 == be_value(b),
    {
        let b = random_alphanumeric(16);
        let r = match Id::from_bytes(b.as_slice()) {
            Some(id) => id,
            None => Id(0),
        };
        assert(b@.len() == 16 && (forall|i: int| 0 <= i < 16 ==> is_alphanumeric(#[trigger] b@[i]))
            && r.0 == be_value(b@));
        r
    }
}

pub open spec fn pow256(n: nat) -> nat
    decreases n,
{
    if n == 0 {
        1
    } else {
        pow256((n - 1) as nat) * 256
    }
}

proof fn lemma_pow256_bound(n: nat)
    requires
        n <= 16,
    ensures
        pow256(n) <= 0x1_0000_0000_0000_0000_0000_0000_0000_0000,
        pow256(n) > 0,
    decreases n,
{
    if n > 0 {
        lemma_pow256_bound((n - 1) as nat);
        let p = pow256((n - 1) as nat);
        assert(p * 256 <= 0x1_0000_0000_0000_0000_0000_0000_0000_0000) by {
            if n - 1 < 16 {
                lemma_pow256_small((n - 1) as nat);
            }
        }
    }
}

proof fn lemma_pow256_small(n: nat)
    requires
        n < 16,
    ensures
        pow256(n) * 256 <= 0x1_0000_0000_0000_0000_0000_0000_0000_0000,
    decreases n,
{
    reveal_with_fuel(pow256, 17);
    if n == 0 {
    } else {
        lemma_pow256_small((n - 1) as nat);
        assert(pow256(n) == pow256((n - 1) as nat) * 256);
        let p = pow256((n - 1) as nat);
        assert(p * 256 * 256 <= 0x1_0000_0000_0000_0000_0000_0000_0000_0000) by {
            assert(pow256(n) * 256 == pow256((n + 1) as nat));
        }
    }
}

/// A logical counter of one replica.
#[derive(Clone, Copy, PartialEq, Eq, Structural, Hash, Debug, PartialOrd, Ord, Default)]
pub struct Timestamp(pub u32);

impl Timestamp {
    pub fn zero() -> (r: Timestamp)
        ensures
            r.0 == 0,
    {
        Timestamp(0)
    }

    /// The successor.
    pub fn inc(self) -> (r: Timestamp)
        requires
            self.0 < u32::MAX,
        ensures
            r.0 == self.0 + 1,
    {
        Timestamp(self.0 + 1)
    }

    pub fn value(self) -> (r: u32)
        ensures
            r == self.0,
    {
        self.0
    }
}

impl From<u32> for Timestamp {
    fn from(v: u32) -> (r: Timestamp) {
        Timestamp(v)
    }
}

impl vstd::std_specs::convert::FromSpecImpl<u32> for Timestamp {
    open spec fn obeys_from_spec() -> bool {
        true
    }

    open spec fn from_spec(v: u32) -> Timestamp {
        Timestamp(v)
    }
}

} // verus!
