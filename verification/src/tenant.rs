//! The tenants on whose behalf requests are made.
use vstd::prelude::*;

verus! {

/// The canonical name of a tenant.
#[derive(Debug, PartialEq, Eq)]
pub struct TenantKey {
    text: String,
}

/// What stands before the identity of a tenant that was authenticated.
pub const AUTHENTICATED: &'static str = "auth:";

/// The key of the tenant `id`, which was authenticated.
pub open spec fn authenticated(id: Seq<char>) -> Seq<char> {
    AUTHENTICATED@ + id
}

/// The hexadecimal digits, in order.
pub const HEX_DIGITS: &'static str = "0123456789abcdef";

/// The hexadecimal digits of some bytes, two for each.
pub open spec fn hex(bytes: Seq<u8>) -> Seq<char> {
    Seq::new(
        2 * bytes.len(),
        |i: int|
            HEX_DIGITS@[if i % 2 == 0 {
                bytes[i / 2] as int / 16
            } else {
                bytes[i / 2] as int % 16
            }],
    )
}

/// The character that stands for a hexadecimal digit: `0` to `9`, and then `a` to `f`.
pub open spec fn hex_digit(d: int) -> char {
    if d < 10 {
        ('0' as int + d) as char
    } else {
        ('a' as int + d - 10) as char
    }
}

/// Each byte has two hexadecimal digits, the higher before the lower.
pub proof fn lemma_hex(bytes: Seq<u8>)
    ensures
        hex(bytes).len() == 2 * bytes.len(),
        forall|i: int|
            0 <= i < bytes.len() ==> {
                &&& hex(bytes)[2 * i] == hex_digit((#[trigger] bytes[i]) as int / 16)
                &&& hex(bytes)[2 * i + 1] == hex_digit(bytes[i] as int % 16)
            },
{
    reveal_strlit("0123456789abcdef");
    assert forall|i: int| 0 <= i < bytes.len() implies {
        &&& hex(bytes)[2 * i] == hex_digit((#[trigger] bytes[i]) as int / 16)
        &&& hex(bytes)[2 * i + 1] == hex_digit(bytes[i] as int % 16)
    } by {
        let high = bytes[i] as int / 16;
        let low = bytes[i] as int % 16;
        assert((2 * i) / 2 == i && (2 * i) % 2 == 0);
        assert((2 * i + 1) / 2 == i && (2 * i + 1) % 2 == 1);
        assert(0 <= high < 16 && 0 <= low < 16);
        assert(hex(bytes)[2 * i] == HEX_DIGITS@[high]);
        assert(hex(bytes)[2 * i + 1] == HEX_DIGITS@[low]);
    }
}

proof fn lemma_hex_digit(a: int, b: int)
    requires
        0 <= a < 16,
        0 <= b < 16,
        hex_digit(a) == hex_digit(b),
    ensures
        a == b,
{
}

/// Different bytes have different digits.
#[verifier::rlimit(30)]
pub proof fn lemma_hex_distinct(a: Seq<u8>, b: Seq<u8>)
    requires
        hex(a) == hex(b),
    ensures
        a == b,
{
    lemma_hex(a);
    lemma_hex(b);
    assert(a.len() == b.len());
    assert forall|i: int| 0 <= i < a.len() implies a[i] == b[i] by {
        let x = a[i] as int;
        let y = b[i] as int;
        assert(hex_digit(x / 16) == hex_digit(y / 16));
        assert(hex_digit(x % 16) == hex_digit(y % 16));
        lemma_hex_digit(x / 16, y / 16);
        lemma_hex_digit(x % 16, y % 16);
    }
    assert(a =~= b);
}

impl View for TenantKey {
    type V = Seq<char>;

    closed spec fn view(&self) -> Seq<char> {
        self.text@
    }
}

impl Clone for TenantKey {
    fn clone(&self) -> (r: Self)
        ensures
            r@ == self@,
    {
        TenantKey { text: self.text.clone() }
    }
}

impl TenantKey {
    /// The text of the key.
    pub fn as_str(&self) -> (r: &str)
        ensures
            r@ == self@,
    {
        self.text.as_str()
    }
}

/// Who makes requests.
#[derive(Debug, PartialEq, Eq)]
pub enum TenantIdentity {
    /// A tenant that was authenticated, by its identity.
    Authenticated(String),
}

impl TenantIdentity {
    /// The key of the tenant.
    pub fn into_key(self) -> (r: TenantKey)
        ensures
            match self {
                TenantIdentity::Authenticated(id) => r@ == authenticated(id@),
            },
    {
        match self {
            TenantIdentity::Authenticated(id) => {
                let mut text = AUTHENTICATED.to_owned();
                text.append(&id);
                TenantKey { text }
            },
        }
    }
}

/// The key of a tenant that is known only by the SHA-256 hash of its credential: the
/// hexadecimal digits of the hash are its identity.
pub fn authenticated_tenant_key_from_sha256(hash: [u8; 32]) -> (r: TenantKey)
    ensures
        r@ == authenticated(hex(hash@)),
{
    let mut id = String::new();
    let mut i: usize = 0;
    assert(id@ =~= hex(hash@.take(0)));
    while i < 32
        invariant
            i <= 32,
            id@ == hex(hash@.take(i as int)),
        decreases 32 - i,
    {
        proof {
            reveal_strlit("0123456789abcdef");
        }
        let high = (hash[i] / 16) as usize;
        let low = (hash[i] % 16) as usize;
        let ghost before = id@;
        id.append(HEX_DIGITS.substring_char(high, high + 1));
        id.append(HEX_DIGITS.substring_char(low, low + 1));
        proof {
            let taken = hash@.take(i + 1);
            assert(id@ =~= before + seq![HEX_DIGITS@[high as int], HEX_DIGITS@[low as int]]);
            assert forall|j: int| 0 <= j < 2 * i implies #[trigger] hex(taken)[j] == before[j] by {
                assert(taken[j / 2] == hash@.take(i as int)[j / 2]);
            }
            assert(id@ =~= hex(taken));
        }
        i += 1;
    }
    assert(hash@.take(32) =~= hash@);
    TenantIdentity::Authenticated(id).into_key()
}

/// The caller of a route of the data plane.
#[derive(Debug, PartialEq, Eq)]
pub struct DataPlaneCaller {
    tenant_key: TenantKey,
}

impl View for DataPlaneCaller {
    type V = Seq<char>;

    closed spec fn view(&self) -> Seq<char> {
        self.tenant_key@
    }
}

impl Clone for DataPlaneCaller {
    fn clone(&self) -> (r: Self)
        ensures
            r@ == self@,
    {
        DataPlaneCaller { tenant_key: self.tenant_key.clone() }
    }
}

impl DataPlaneCaller {
    /// The caller that acts for this tenant.
    pub fn new(tenant_key: TenantKey) -> (r: Self)
        ensures
            r@ == tenant_key@,
    {
        DataPlaneCaller { tenant_key }
    }

    /// The tenant for which the caller acts.
    pub fn tenant_key(&self) -> (r: &TenantKey)
        ensures
            r@ == self@,
    {
        &self.tenant_key
    }
}

} // verus!
