//! The credentials of tenants, as they are configured.
use crate::text::search::same;
use vstd::prelude::*;

verus! {

/// A key that belongs to a tenant.
#[derive(Debug, PartialEq, Eq)]
pub struct TenantApiKeyEntry {
    pub tenant_id: String,
    pub key: String,
}

/// Why a configuration is refused. Each error gives the index of the first entry that is at
/// fault.
#[derive(Debug, Clone, Copy, PartialEq, Eq, Structural)]
pub enum ConfigError {
    /// The key of the entry is empty.
    EmptyTenantKey(usize),
    /// The key of the entry is that of an earlier entry, or the shared key.
    DuplicateTenantKey(usize),
}

pub type ConfigResult<T> = Result<T, ConfigError>;

/// The text of an optional key.
pub open spec fn key_text(key: Option<&str>) -> Option<Seq<char>> {
    match key {
        Some(key) => Some(key@),
        None => None,
    }
}

/// The key of entry `i` is that of an earlier entry, or the shared key.
pub open spec fn is_duplicate(
    api_key: Option<Seq<char>>,
    entries: Seq<TenantApiKeyEntry>,
    i: int,
) -> bool {
    ||| api_key == Some(entries[i].key@)
    ||| exists|j: int| 0 <= j < i && (#[trigger] entries[j]).key@ == entries[i].key@
}

/// Entry `i` is at fault.
pub open spec fn is_faulty(
    api_key: Option<Seq<char>>,
    entries: Seq<TenantApiKeyEntry>,
    i: int,
) -> bool {
    0 <= i < entries.len() && (entries[i].key@.len() == 0 || is_duplicate(api_key, entries, i))
}

/// Entry `i` is the first that is at fault.
pub open spec fn is_first_fault(
    api_key: Option<Seq<char>>,
    entries: Seq<TenantApiKeyEntry>,
    i: int,
) -> bool {
    &&& is_faulty(api_key, entries, i)
    &&& forall|j: int| 0 <= j < i ==> !#[trigger] is_faulty(api_key, entries, j)
}

/// No entry is at fault.
pub open spec fn is_valid(api_key: Option<Seq<char>>, entries: Seq<TenantApiKeyEntry>) -> bool {
    forall|i: int| !#[trigger] is_faulty(api_key, entries, i)
}

/// Credentials are accepted just where no key is empty, none is the shared key, and no two are the
/// same. The names of the tenants do not matter.
pub proof fn lemma_valid(api_key: Option<Seq<char>>, entries: Seq<TenantApiKeyEntry>)
    ensures
        is_valid(api_key, entries) <==> {
            &&& forall|i: int|
                0 <= i < entries.len() ==> {
                    &&& (#[trigger] entries[i]).key@.len() > 0
                    &&& api_key != Some(entries[i].key@)
                }
            &&& forall|i: int, j: int|
                0 <= i < j < entries.len() ==> (#[trigger] entries[i]).key@ != (
                #[trigger] entries[j]).key@
        },
{
    if is_valid(api_key, entries) {
        assert forall|i: int| 0 <= i < entries.len() implies (#[trigger] entries[i]).key@.len() > 0
            && api_key != Some(entries[i].key@) by {
            assert(!is_faulty(api_key, entries, i));
        }
        assert forall|i: int, j: int| 0 <= i < j < entries.len() implies (
        #[trigger] entries[i]).key@ != (#[trigger] entries[j]).key@ by {
            assert(!is_faulty(api_key, entries, j));
        }
    }
}

/// The first entry at fault is the one that the entries before it are accepted without, and not
/// with.
pub proof fn lemma_first_fault(
    api_key: Option<Seq<char>>,
    entries: Seq<TenantApiKeyEntry>,
    i: int,
)
    ensures
        is_first_fault(api_key, entries, i) <==> {
            &&& 0 <= i < entries.len()
            &&& is_valid(api_key, entries.take(i))
            &&& !is_valid(api_key, entries.take(i + 1))
        },
{
    if 0 <= i < entries.len() {
        let before = entries.take(i);
        let with = entries.take(i + 1);
        assert forall|j: int| 0 <= j < i implies #[trigger] is_faulty(api_key, before, j)
            == is_faulty(api_key, entries, j) by {
            lemma_faulty_prefix(api_key, entries, i, j);
        }
        assert forall|j: int| 0 <= j <= i implies #[trigger] is_faulty(api_key, with, j)
            == is_faulty(api_key, entries, j) by {
            lemma_faulty_prefix(api_key, entries, i + 1, j);
        }
        if is_first_fault(api_key, entries, i) {
            assert forall|j: int| !#[trigger] is_faulty(api_key, before, j) by {
                if 0 <= j < i {
                    assert(!is_faulty(api_key, entries, j));
                }
            }
            assert(is_faulty(api_key, with, i));
        }
        if is_valid(api_key, before) && !is_valid(api_key, with) {
            let j = choose|j: int| #[trigger] is_faulty(api_key, with, j);
            assert(is_faulty(api_key, entries, j));
            if j < i {
                assert(!is_faulty(api_key, before, j));
            }
            assert forall|k: int| 0 <= k < i implies !#[trigger] is_faulty(
                api_key,
                entries,
                k,
            ) by {
                assert(!is_faulty(api_key, before, k));
            }
        }
    }
}

proof fn lemma_faulty_prefix(
    api_key: Option<Seq<char>>,
    entries: Seq<TenantApiKeyEntry>,
    n: int,
    j: int,
)
    requires
        0 <= j < n <= entries.len(),
    ensures
        is_faulty(api_key, entries.take(n), j) == is_faulty(api_key, entries, j),
{
    let part = entries.take(n);
    assert(part[j] == entries[j]);
    if is_duplicate(api_key, entries, j) && api_key != Some(entries[j].key@) {
        let k = choose|k: int| 0 <= k < j && (#[trigger] entries[k]).key@ == entries[j].key@;
        assert(part[k].key@ == part[j].key@);
    }
    if is_duplicate(api_key, part, j) && api_key != Some(part[j].key@) {
        let k = choose|k: int| 0 <= k < j && (#[trigger] part[k]).key@ == part[j].key@;
        assert(entries[k].key@ == entries[j].key@);
    }
}

/// Whether the key of entry `i` is that of an earlier entry, or the shared key.
fn repeats(api_key: Option<&str>, entries: &[TenantApiKeyEntry], i: usize) -> (r: bool)
    requires
        i < entries@.len(),
    ensures
        r == is_duplicate(key_text(api_key), entries@, i as int),
{
    match api_key {
        Some(key) => {
            if same(key, &entries[i].key) {
                return true;
            }
        },
        None => {},
    }
    let mut j: usize = 0;
    while j < i
        invariant
            j <= i < entries@.len(),
            key_text(api_key) != Some(entries@[i as int].key@),
            forall|x: int| 0 <= x < j ==> (#[trigger] entries@[x]).key@ != entries@[i as int].key@,
        decreases i - j,
    {
        if same(&entries[j].key, &entries[i].key) {
            return true;
        }
        j += 1;
    }
    false
}

/// Whether the keys of the tenants can be told apart: none is empty, and none is used twice or
/// is the shared key.
pub fn validate_tenant_credentials(
    api_key: Option<&str>,
    tenant_api_keys: &[TenantApiKeyEntry],
) -> (r: ConfigResult<()>)
    ensures
        match r {
            Ok(_) => is_valid(key_text(api_key), tenant_api_keys@),
            Err(ConfigError::EmptyTenantKey(i)) => {
                &&& is_first_fault(key_text(api_key), tenant_api_keys@, i as int)
                &&& tenant_api_keys@[i as int].key@.len() == 0
            },
            Err(ConfigError::DuplicateTenantKey(i)) => {
                &&& is_first_fault(key_text(api_key), tenant_api_keys@, i as int)
                &&& tenant_api_keys@[i as int].key@.len() > 0
            },
        },
{
    let n = tenant_api_keys.len();
    let mut i: usize = 0;
    while i < n
        invariant
            n == tenant_api_keys@.len(),
            i <= n,
            forall|j: int|
                0 <= j < i ==> !#[trigger] is_faulty(key_text(api_key), tenant_api_keys@, j),
        decreases n - i,
    {
        if tenant_api_keys[i].key.as_str().is_empty() {
            return Err(ConfigError::EmptyTenantKey(i));
        }
        if repeats(api_key, tenant_api_keys, i) {
            return Err(ConfigError::DuplicateTenantKey(i));
        }
        i += 1;
    }
    Ok(())
}

} // verus!
