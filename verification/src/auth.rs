//! Bearer-token authentication.
//!
//! A token is looked up by its SHA-256 hash, never by itself. A token that is close to a valid
//! one has an unrelated hash, so the time that a lookup takes tells nothing of how close a guess
//! was.
use crate::config::{
    is_faulty, is_first_fault, is_valid, key_text, validate_tenant_credentials, ConfigError,
    ConfigResult, TenantApiKeyEntry,
};
use crate::tenant::{
    authenticated, authenticated_tenant_key_from_sha256, hex, TenantIdentity, TenantKey,
};
use crate::text::edit::{strip_prefix, without_prefix};
use sha2::{Digest, Sha256};
use vstd::prelude::*;
use vstd::utf8::*;

verus! {

/// The SHA-256 hash of some bytes.
pub uninterp spec fn sha256(data: Seq<u8>) -> Seq<u8>;

/// `sha2::Sha256::digest`: the SHA-256 hash of all of `data`, a function of its bytes.
#[verifier::external_body]
fn sha256_digest(data: &[u8]) -> (r: [u8; 32])
    ensures
        r@ == sha256(data@),
{
    Sha256::digest(data).into()
}

/// The hash by which a key is known.
pub open spec fn hash_of(key: Seq<char>) -> Seq<u8> {
    sha256(encode_utf8(key))
}

/// What stands before the token in the value of an `Authorization` header.
pub const BEARER: &'static str = "Bearer ";

/// The keys of tenants by the hashes of their credentials.
pub type Keys = Map<Seq<u8>, Seq<char>>;

/// The keys with the shared key alone: its tenant is known by the hash.
pub open spec fn shared_keys(api_key: Option<Seq<char>>) -> Keys {
    match api_key {
        Some(key) => Map::empty().insert(hash_of(key), authenticated(hex(hash_of(key)))),
        None => Map::empty(),
    }
}

/// The keys with the shared key and those of the entries. Of two with one hash, the later
/// stays.
pub open spec fn configured_keys(
    api_key: Option<Seq<char>>,
    entries: Seq<TenantApiKeyEntry>,
) -> Keys
    decreases entries.len(),
{
    if entries.len() == 0 {
        shared_keys(api_key)
    } else {
        configured_keys(api_key, entries.drop_last()).insert(
            hash_of(entries.last().key@),
            authenticated(entries.last().tenant_id@),
        )
    }
}

/// What becomes of a request.
#[derive(Debug, PartialEq, Eq)]
pub enum Access {
    /// No key is configured: the request passes.
    Open,
    /// The request passes on behalf of the tenant.
    Granted(TenantKey),
    /// The request is rejected.
    Denied,
}

/// The mathematical model of an [`Access`].
pub enum AccessModel {
    Open,
    Granted(Seq<char>),
    Denied,
}

impl View for Access {
    type V = AccessModel;

    open spec fn view(&self) -> AccessModel {
        match self {
            Access::Open => AccessModel::Open,
            Access::Granted(tenant) => AccessModel::Granted(tenant@),
            Access::Denied => AccessModel::Denied,
        }
    }
}

/// What becomes of a request that presents a token with this hash, or no token.
pub open spec fn access_by_hash(keys: Keys, token_hash: Option<Seq<u8>>) -> AccessModel {
    if keys == Map::<Seq<u8>, Seq<char>>::empty() {
        AccessModel::Open
    } else {
        match token_hash {
            Some(hash) => if keys.contains_key(hash) {
                AccessModel::Granted(keys[hash])
            } else {
                AccessModel::Denied
            },
            None => AccessModel::Denied,
        }
    }
}

/// The token in the value of an `Authorization` header.
pub open spec fn bearer_token(header: Option<Seq<char>>) -> Option<Seq<char>> {
    match header {
        Some(value) => without_prefix(value, BEARER@),
        None => None,
    }
}

/// What becomes of a request with this `Authorization` header, or without one.
pub open spec fn access(keys: Keys, header: Option<Seq<char>>) -> AccessModel {
    access_by_hash(
        keys,
        match bearer_token(header) {
            Some(token) => Some(hash_of(token)),
            None => None,
        },
    )
}

/// No hash stands twice in the list.
spec fn distinct(keys: Seq<([u8; 32], TenantKey)>) -> bool {
    forall|i: int, j: int|
        0 <= i < j < keys.len() ==> (#[trigger] keys[i]).0@ != (#[trigger] keys[j]).0@
}

/// The hash stands in the list.
spec fn listed(keys: Seq<([u8; 32], TenantKey)>, hash: Seq<u8>) -> bool {
    exists|i: int| 0 <= i < keys.len() && (#[trigger] keys[i]).0@ == hash
}

/// The map that the list stands for.
spec fn table(keys: Seq<([u8; 32], TenantKey)>) -> Keys {
    Map::new(
        |hash: Seq<u8>| listed(keys, hash),
        |hash: Seq<u8>|
            keys[choose|i: int| 0 <= i < keys.len() && (#[trigger] keys[i]).0@ == hash].1@,
    )
}

proof fn lemma_table_at(keys: Seq<([u8; 32], TenantKey)>, i: int)
    requires
        distinct(keys),
        0 <= i < keys.len(),
    ensures
        table(keys).contains_key(keys[i].0@),
        table(keys)[keys[i].0@] == keys[i].1@,
{
    let hash = keys[i].0@;
    assert(listed(keys, hash));
    let j = choose|j: int| 0 <= j < keys.len() && (#[trigger] keys[j]).0@ == hash;
    if i < j {
        assert(keys[i].0@ != keys[j].0@);
    } else if j < i {
        assert(keys[j].0@ != keys[i].0@);
    }
}

/// Whether two hashes are the same.
fn same_hash(a: &[u8; 32], b: &[u8; 32]) -> (r: bool)
    ensures
        r == (a@ == b@),
{
    let mut i: usize = 0;
    while i < 32
        invariant
            i <= 32,
            forall|j: int| 0 <= j < i ==> a@[j] == b@[j],
        decreases 32 - i,
    {
        if a[i] != b[i] {
            assert(a@[i as int] != b@[i as int]);
            return false;
        }
        i += 1;
    }
    assert(a@ =~= b@);
    true
}

/// Where the hash stands in the list.
fn index_of(keys: &Vec<([u8; 32], TenantKey)>, hash: &[u8; 32]) -> (r: Option<usize>)
    ensures
        match r {
            Some(i) => i < keys@.len() && keys@[i as int].0@ == hash@,
            None => !listed(keys@, hash@),
        },
{
    let n = keys.len();
    let mut i: usize = 0;
    while i < n
        invariant
            n == keys@.len(),
            i <= n,
            forall|j: int| 0 <= j < i ==> (#[trigger] keys@[j]).0@ != hash@,
        decreases n - i,
    {
        if same_hash(&keys[i].0, hash) {
            return Some(i);
        }
        i += 1;
    }
    None
}

/// Adds a hash with its tenant, in place of the tenant that the hash may have had.
fn insert_key(keys: &mut Vec<([u8; 32], TenantKey)>, hash: [u8; 32], tenant: TenantKey)
    requires
        distinct(old(keys)@),
    ensures
        distinct(final(keys)@),
        table(final(keys)@) == table(old(keys)@).insert(hash@, tenant@),
{
    let ghost before = keys@;
    let ghost model = tenant@;
    let ghost mut at: int = before.len() as int;
    match index_of(keys, &hash) {
        Some(i) => {
            keys.set(i, (hash, tenant));
            proof {
                at = i as int;
            }
        },
        None => {
            keys.push((hash, tenant));
        },
    }
    proof {
        assert(keys@[at].0@ == hash@);
        let all = table(before).insert(hash@, model);
        assert forall|h: Seq<u8>| #[trigger] table(keys@).contains_key(h) == all.contains_key(
            h,
        ) by {
            if table(keys@).contains_key(h) && h != hash@ {
                let j = choose|j: int| 0 <= j < keys@.len() && (#[trigger] keys@[j]).0@ == h;
                assert(before[j] == keys@[j]);
                assert(listed(before, h));
            }
            if all.contains_key(h) && h != hash@ {
                let j = choose|j: int| 0 <= j < before.len() && (#[trigger] before[j]).0@ == h;
                assert(before[j] == keys@[j]);
                assert(listed(keys@, h));
            }
        }
        assert forall|h: Seq<u8>| #[trigger] table(keys@).contains_key(h) implies table(keys@)[h]
            == all[h] by {
            let j = choose|j: int| 0 <= j < keys@.len() && (#[trigger] keys@[j]).0@ == h;
            lemma_table_at(keys@, j);
            if h != hash@ {
                assert(before[j] == keys@[j]);
                lemma_table_at(before, j);
            }
        }
        assert(table(keys@) =~= all);
    }
}

/// The hash by which a key is known.
pub fn hash_key(key: &str) -> (r: [u8; 32])
    ensures
        r@ == hash_of(key@),
{
    sha256_digest(key.as_bytes())
}

/// The keys that give access.
pub struct AuthConfig {
    keys: Vec<([u8; 32], TenantKey)>,
}

impl View for AuthConfig {
    type V = Keys;

    closed spec fn view(&self) -> Keys {
        table(self.keys@)
    }
}

impl AuthConfig {
    #[verifier::type_invariant]
    spec fn well_formed(self) -> bool {
        distinct(self.keys@)
    }

    /// The one shared key, or none. Every caller that presents it acts for the same tenant,
    /// which is known by the hash.
    pub fn new(api_key: Option<String>) -> (r: Self)
        ensures
            r@ == shared_keys(crate::types::text_of(api_key)),
    {
        let none: Vec<TenantApiKeyEntry> = Vec::new();
        AuthConfig { keys: Self::build_keys(api_key, none.as_slice()) }
    }

    /// The shared key, if there is one, and the keys of tenants, each of which gives access on
    /// behalf of its own tenant `auth:<tenant_id>`. Keys that cannot be told apart are refused.
    pub fn with_tenant_keys(
        api_key: Option<String>,
        tenant_api_keys: &[TenantApiKeyEntry],
    ) -> (r: ConfigResult<Self>)
        ensures
            match r {
                Ok(config) => {
                    &&& is_valid(crate::types::text_of(api_key), tenant_api_keys@)
                    &&& config@ == configured_keys(
                        crate::types::text_of(api_key),
                        tenant_api_keys@,
                    )
                },
                Err(ConfigError::EmptyTenantKey(i)) => {
                    &&& is_first_fault(
                        crate::types::text_of(api_key),
                        tenant_api_keys@,
                        i as int,
                    )
                    &&& tenant_api_keys@[i as int].key@.len() == 0
                },
                Err(ConfigError::DuplicateTenantKey(i)) => {
                    &&& is_first_fault(
                        crate::types::text_of(api_key),
                        tenant_api_keys@,
                        i as int,
                    )
                    &&& tenant_api_keys@[i as int].key@.len() > 0
                },
            },
    {
        let shared = match &api_key {
            Some(key) => Some(key.as_str()),
            None => None,
        };
        match validate_tenant_credentials(shared, tenant_api_keys) {
            Ok(_) => Ok(AuthConfig { keys: Self::build_keys(api_key, tenant_api_keys) }),
            Err(error) => Err(error),
        }
    }

    fn build_keys(api_key: Option<String>, tenant_api_keys: &[TenantApiKeyEntry]) -> (r: Vec<
        ([u8; 32], TenantKey),
    >)
        ensures
            distinct(r@),
            table(r@) == configured_keys(crate::types::text_of(api_key), tenant_api_keys@),
    {
        let ghost shared = crate::types::text_of(api_key);
        let mut keys: Vec<([u8; 32], TenantKey)> = Vec::new();
        assert(table(keys@) =~= Map::empty());
        match api_key {
            Some(key) => {
                let key_hash = hash_key(&key);
                insert_key(&mut keys, key_hash, authenticated_tenant_key_from_sha256(key_hash));
            },
            None => {},
        }
        let n = tenant_api_keys.len();
        let mut i: usize = 0;
        assert(tenant_api_keys@.take(0) =~= seq![]);
        while i < n
            invariant
                n == tenant_api_keys@.len(),
                i <= n,
                distinct(keys@),
                table(keys@) == configured_keys(shared, tenant_api_keys@.take(i as int)),
            decreases n - i,
        {
            let entry = &tenant_api_keys[i];
            assert(tenant_api_keys@.take(i + 1).drop_last() =~= tenant_api_keys@.take(i as int));
            insert_key(
                &mut keys,
                hash_key(&entry.key),
                TenantIdentity::Authenticated(entry.tenant_id.clone()).into_key(),
            );
            i += 1;
        }
        assert(tenant_api_keys@.take(n as int) =~= tenant_api_keys@);
        keys
    }

    /// Whether a key is configured. Where none is, every request passes.
    pub fn is_enabled(&self) -> (r: bool)
        ensures
            r == (self@ != Map::<Seq<u8>, Seq<char>>::empty()),
    {
        proof {
            use_type_invariant(self);
            if self.keys@.len() > 0 {
                lemma_table_at(self.keys@, 0);
            } else {
                assert(table(self.keys@) =~= Map::empty());
            }
        }
        self.keys.len() > 0
    }

    /// The tenant of the credential with this hash.
    pub fn tenant_of(&self, token_hash: &[u8; 32]) -> (r: Option<&TenantKey>)
        ensures
            match r {
                Some(tenant) => self@.contains_key(token_hash@) && self@[token_hash@] == tenant@,
                None => !self@.contains_key(token_hash@),
            },
    {
        proof {
            use_type_invariant(self);
        }
        match index_of(&self.keys, token_hash) {
            Some(i) => {
                proof {
                    lemma_table_at(self.keys@, i as int);
                }
                Some(&self.keys[i].1)
            },
            None => None,
        }
    }

    /// Whether `token` is one of the keys, shared or of a tenant.
    pub fn contains_token(&self, token: &str) -> (r: bool)
        ensures
            r == self@.contains_key(hash_of(token@)),
    {
        let token_hash = hash_key(token);
        self.tenant_of(&token_hash).is_some()
    }

    /// What becomes of a request that presents a token with this hash, or no token.
    pub fn authorize_hash(&self, token_hash: Option<[u8; 32]>) -> (r: Access)
        ensures
            r@ == access_by_hash(
                self@,
                match token_hash {
                    Some(hash) => Some(hash@),
                    None => None,
                },
            ),
    {
        if !self.is_enabled() {
            return Access::Open;
        }
        match token_hash {
            Some(hash) => match self.tenant_of(&hash) {
                Some(tenant) => Access::Granted(tenant.clone()),
                None => Access::Denied,
            },
            None => Access::Denied,
        }
    }

    /// What becomes of a request with this `Authorization` header, or without one.
    pub fn authorize(&self, header: Option<&str>) -> (r: Access)
        ensures
            r@ == access(self@, key_text(header)),
    {
        let token = match header {
            Some(value) => strip_prefix(value, BEARER),
            None => None,
        };
        let token_hash = match token {
            Some(token) => Some(hash_key(token)),
            None => None,
        };
        self.authorize_hash(token_hash)
    }
}

/// The hash of the key is among the hashes of the keys of some entries.
pub open spec fn has_hash(entries: Seq<TenantApiKeyEntry>, hash: Seq<u8>) -> bool {
    exists|i: int| 0 <= i < entries.len() && hash_of((#[trigger] entries[i]).key@) == hash
}

/// Where no key is configured, every request passes.
pub proof fn lemma_open_without_keys(header: Option<Seq<char>>)
    ensures
        access(shared_keys(None), header) == AccessModel::Open,
        access(configured_keys(None, seq![]), header) == AccessModel::Open,
{
}

/// The keys that are configured, and no others, are known: the shared key and those of the
/// entries.
pub proof fn lemma_configured_hashes(
    api_key: Option<Seq<char>>,
    entries: Seq<TenantApiKeyEntry>,
    hash: Seq<u8>,
)
    ensures
        configured_keys(api_key, entries).contains_key(hash) <==> (has_hash(entries, hash) || (
        api_key matches Some(key) && hash_of(key) == hash)),
    decreases entries.len(),
{
    if entries.len() > 0 {
        let before = entries.drop_last();
        lemma_configured_hashes(api_key, before, hash);
        if has_hash(before, hash) {
            let i = choose|i: int|
                0 <= i < before.len() && hash_of((#[trigger] before[i]).key@) == hash;
            assert(entries[i] == before[i]);
        }
        if has_hash(entries, hash) {
            let i = choose|i: int|
                0 <= i < entries.len() && hash_of((#[trigger] entries[i]).key@) == hash;
            if i < before.len() {
                assert(entries[i] == before[i]);
            } else {
                assert(hash == hash_of(entries.last().key@));
            }
        }
        if hash == hash_of(entries.last().key@) {
            assert(entries[entries.len() - 1].key@ == entries.last().key@);
        }
    }
}

/// A key that is configured is recognised: the shared key, and that of every entry.
pub proof fn lemma_configured_key_known(
    api_key: Option<Seq<char>>,
    entries: Seq<TenantApiKeyEntry>,
    token: Seq<char>,
)
    requires
        api_key == Some(token) || exists|i: int|
            0 <= i < entries.len() && (#[trigger] entries[i]).key@ == token,
    ensures
        configured_keys(api_key, entries).contains_key(hash_of(token)),
{
    lemma_configured_hashes(api_key, entries, hash_of(token));
}

/// Where a key is configured, a request without a token, or with one whose hash is not that of
/// a key, is rejected.
pub proof fn lemma_unknown_denied(
    api_key: Option<Seq<char>>,
    entries: Seq<TenantApiKeyEntry>,
    header: Option<Seq<char>>,
)
    requires
        api_key is Some || entries.len() > 0,
        bearer_token(header) matches Some(token) ==> {
            &&& !has_hash(entries, hash_of(token))
            &&& api_key matches Some(key) ==> hash_of(key) != hash_of(token)
        },
    ensures
        access(configured_keys(api_key, entries), header) == AccessModel::Denied,
{
    let keys = configured_keys(api_key, entries);
    if entries.len() > 0 {
        assert(keys.contains_key(hash_of(entries.last().key@)));
    } else {
        assert(keys.contains_key(hash_of(api_key->0)));
    }
    if let Some(token) = bearer_token(header) {
        lemma_configured_hashes(api_key, entries, hash_of(token));
    }
}

/// The header that presents a token.
pub open spec fn bearer_header(token: Seq<char>) -> Seq<char> {
    BEARER@ + token
}

proof fn lemma_bearer_header(token: Seq<char>)
    ensures
        bearer_token(Some(bearer_header(token))) == Some(token),
{
    let value = bearer_header(token);
    assert(value.subrange(0, BEARER@.len() as int) =~= BEARER@);
    assert(value.skip(BEARER@.len() as int) =~= token);
}

/// A request with the shared key passes on behalf of the tenant that is known by its hash, if
/// no key of a tenant has the same hash. The shared key may stand alone.
pub proof fn lemma_shared_key_granted(key: Seq<char>, entries: Seq<TenantApiKeyEntry>)
    requires
        !has_hash(entries, hash_of(key)),
    ensures
        access(configured_keys(Some(key), entries), Some(bearer_header(key)))
            == AccessModel::Granted(authenticated(hex(hash_of(key)))),
        configured_keys(Some(key), seq![]) == shared_keys(Some(key)),
    decreases entries.len(),
{
    let hash = hash_of(key);
    let keys = configured_keys(Some(key), entries);
    lemma_bearer_header(key);
    lemma_configured_hashes(Some(key), entries, hash);
    if entries.len() > 0 {
        let before = entries.drop_last();
        assert(hash_of(entries[entries.len() - 1].key@) != hash);
        if has_hash(before, hash) {
            let i = choose|i: int|
                0 <= i < before.len() && hash_of((#[trigger] before[i]).key@) == hash;
            assert(entries[i] == before[i]);
        }
        lemma_shared_key_granted(key, before);
        lemma_configured_hashes(Some(key), before, hash);
    }
    assert(keys.contains_key(hash));
}

/// A request with the key of a tenant passes on behalf of that tenant, if no later key has the
/// same hash.
pub proof fn lemma_tenant_key_granted(
    api_key: Option<Seq<char>>,
    entries: Seq<TenantApiKeyEntry>,
    i: int,
)
    requires
        0 <= i < entries.len(),
        forall|j: int|
            i < j < entries.len() ==> hash_of((#[trigger] entries[j]).key@) != hash_of(
                entries[i].key@,
            ),
    ensures
        access(configured_keys(api_key, entries), Some(bearer_header(entries[i].key@)))
            == AccessModel::Granted(authenticated(entries[i].tenant_id@)),
    decreases entries.len(),
{
    let keys = configured_keys(api_key, entries);
    let hash = hash_of(entries[i].key@);
    lemma_bearer_header(entries[i].key@);
    if i < entries.len() - 1 {
        let before = entries.drop_last();
        assert forall|j: int| i < j < before.len() implies hash_of((#[trigger] before[j]).key@)
            != hash_of(before[i].key@) by {
            assert(before[j] == entries[j]);
        }
        lemma_tenant_key_granted(api_key, before, i);
        assert(entries[entries.len() - 1].key@ == entries.last().key@);
        lemma_configured_hashes(api_key, before, hash);
        assert(before[i] == entries[i]);
        assert(has_hash(before, hash));
    }
    assert(keys.contains_key(hash));
}

/// The header presents the token: the word `Bearer`, a space, and the token as it is.
pub open spec fn presents(header: Option<Seq<char>>, token: Seq<char>) -> bool {
    header == Some("Bearer "@ + token)
}

/// A request passes on behalf of a tenant just where it presents a token whose SHA-256 hash is
/// that of a key: of the last entry with that hash, for the tenant of the entry, or else of the
/// shared key, for the tenant that the hash names.
pub proof fn lemma_granted(
    api_key: Option<Seq<char>>,
    entries: Seq<TenantApiKeyEntry>,
    header: Option<Seq<char>>,
    token: Seq<char>,
)
    requires
        presents(header, token),
    ensures
        ({
            let hash = sha256(encode_utf8(token));
            let outcome = access(configured_keys(api_key, entries), header);
            &&& forall|i: int|
                {
                    &&& 0 <= i < entries.len()
                    &&& sha256(encode_utf8((#[trigger] entries[i]).key@)) == hash
                    &&& forall|j: int|
                        i < j < entries.len() ==> sha256(encode_utf8((#[trigger] entries[j]).key@))
                            != hash
                } ==> outcome == AccessModel::Granted("auth:"@ + entries[i].tenant_id@)
            &&& (forall|i: int|
                0 <= i < entries.len() ==> sha256(encode_utf8((#[trigger] entries[i]).key@))
                    != hash) && (api_key matches Some(key) && sha256(encode_utf8(key)) == hash)
                ==> outcome == AccessModel::Granted("auth:"@ + hex(hash))
            &&& (forall|i: int|
                0 <= i < entries.len() ==> sha256(encode_utf8((#[trigger] entries[i]).key@))
                    != hash) && (api_key matches Some(key) ==> sha256(encode_utf8(key)) != hash)
                && (api_key is Some || entries.len() > 0) ==> outcome == AccessModel::Denied
        }),
{
    let hash = hash_of(token);
    let keys = configured_keys(api_key, entries);
    assert("Bearer "@ + token == bearer_header(token));
    lemma_bearer_header(token);
    lemma_configured_hashes(api_key, entries, hash);
    if api_key is Some || entries.len() > 0 {
        if entries.len() > 0 {
            assert(keys.contains_key(hash_of(entries.last().key@)));
        } else {
            assert(keys.contains_key(hash_of(api_key->0)));
        }
    }
    assert forall|i: int|
        {
            &&& 0 <= i < entries.len()
            &&& sha256(encode_utf8((#[trigger] entries[i]).key@)) == hash
            &&& forall|j: int|
                i < j < entries.len() ==> sha256(encode_utf8((#[trigger] entries[j]).key@)) != hash
        } implies access(keys, header) == AccessModel::Granted(
        "auth:"@ + entries[i].tenant_id@,
    ) by {
        assert(hash_of(entries[i].key@) == hash);
        assert forall|j: int| i < j < entries.len() implies hash_of((#[trigger] entries[j]).key@)
            != hash_of(entries[i].key@) by {
            assert(sha256(encode_utf8(entries[j].key@)) != hash);
        }
        lemma_last_entry(api_key, entries, i);
        assert(has_hash(entries, hash));
    }
    if forall|i: int|
        0 <= i < entries.len() ==> sha256(encode_utf8((#[trigger] entries[i]).key@)) != hash {
        assert(!has_hash(entries, hash));
        if api_key is Some && hash_of(api_key->0) == hash {
            lemma_shared_key_granted(api_key->0, entries);
            assert(keys.contains_key(hash));
            lemma_bearer_header(api_key->0);
        }
    }
}

/// The tenant of a hash is that of the last entry with that hash.
proof fn lemma_last_entry(
    api_key: Option<Seq<char>>,
    entries: Seq<TenantApiKeyEntry>,
    i: int,
)
    requires
        0 <= i < entries.len(),
        forall|j: int|
            i < j < entries.len() ==> hash_of((#[trigger] entries[j]).key@) != hash_of(
                entries[i].key@,
            ),
    ensures
        configured_keys(api_key, entries).contains_key(hash_of(entries[i].key@)),
        configured_keys(api_key, entries)[hash_of(entries[i].key@)] == "auth:"@
            + entries[i].tenant_id@,
    decreases entries.len(),
{
    if i < entries.len() - 1 {
        let before = entries.drop_last();
        assert forall|j: int| i < j < before.len() implies hash_of((#[trigger] before[j]).key@)
            != hash_of(before[i].key@) by {
            assert(before[j] == entries[j]);
        }
        lemma_last_entry(api_key, before, i);
        assert(hash_of(entries[entries.len() - 1].key@) != hash_of(entries[i].key@));
    }
}

/// Where a key is configured, a request that presents no token is rejected: one without a header,
/// or with a header that does not begin with `Bearer` and a space.
pub proof fn lemma_no_token_denied(
    api_key: Option<Seq<char>>,
    entries: Seq<TenantApiKeyEntry>,
    header: Option<Seq<char>>,
)
    requires
        api_key is Some || entries.len() > 0,
        header matches Some(value) ==> value.len() < "Bearer "@.len() || value.take(
            "Bearer "@.len() as int,
        ) != "Bearer "@,
    ensures
        access(configured_keys(api_key, entries), header) == AccessModel::Denied,
{
    if let Some(value) = header {
        if value.len() >= BEARER@.len() {
            assert(value.subrange(0, BEARER@.len() as int) =~= value.take(BEARER@.len() as int));
        }
    }
    lemma_unknown_denied(api_key, entries, header);
}

/// The shared key alone is the shared key without entries.
pub proof fn lemma_shared_alone(api_key: Option<Seq<char>>)
    ensures
        shared_keys(api_key) == configured_keys(api_key, seq![]),
{
}

/// Different tenants have different keys.
pub proof fn lemma_tenants_distinct(a: Seq<char>, b: Seq<char>)
    ensures
        authenticated(a) == authenticated(b) ==> a == b,
{
    if authenticated(a) == authenticated(b) {
        let n = crate::tenant::AUTHENTICATED@.len() as int;
        assert(a =~= authenticated(a).skip(n));
        assert(b =~= authenticated(b).skip(n));
    }
}

/// Credentials with an empty key, with a key that is used twice, or with the shared key among
/// those of the tenants are refused; without tenants none are.
pub proof fn lemma_credentials(api_key: Option<Seq<char>>, entries: Seq<TenantApiKeyEntry>)
    ensures
        is_valid(api_key, seq![]),
        forall|i: int|
            0 <= i < entries.len() && (#[trigger] entries[i]).key@.len() == 0 ==> !is_valid(
                api_key,
                entries,
            ),
        forall|i: int|
            0 <= i < entries.len() && api_key == Some((#[trigger] entries[i]).key@) ==> !is_valid(
                api_key,
                entries,
            ),
        forall|i: int, j: int|
            0 <= i < j < entries.len() && (#[trigger] entries[i]).key@ == (
            #[trigger] entries[j]).key@ ==> !is_valid(api_key, entries),
{
    assert forall|i: int|
        0 <= i < entries.len() && (#[trigger] entries[i]).key@.len() == 0 implies !is_valid(
        api_key,
        entries,
    ) by {
        assert(is_faulty(api_key, entries, i));
    }
    assert forall|i: int|
        0 <= i < entries.len() && api_key == Some((#[trigger] entries[i]).key@) implies !is_valid(
        api_key,
        entries,
    ) by {
        assert(is_faulty(api_key, entries, i));
    }
    assert forall|i: int, j: int|
        0 <= i < j < entries.len() && (#[trigger] entries[i]).key@ == (
        #[trigger] entries[j]).key@ implies !is_valid(api_key, entries) by {
        assert(is_faulty(api_key, entries, j));
    }
}

impl Clone for AuthConfig {
    fn clone(&self) -> (r: Self)
        ensures
            r@ == self@,
    {
        proof {
            use_type_invariant(self);
        }
        let n = self.keys.len();
        let mut keys: Vec<([u8; 32], TenantKey)> = Vec::new();
        let mut i: usize = 0;
        assert(table(keys@) =~= table(self.keys@.take(0)));
        while i < n
            invariant
                n == self.keys@.len(),
                i <= n,
                distinct(self.keys@),
                keys@.len() == i,
                forall|j: int|
                    0 <= j < i ==> (#[trigger] keys@[j]).0@ == self.keys@[j].0@ && keys@[j].1@
                        == self.keys@[j].1@,
            decreases n - i,
        {
            keys.push((self.keys[i].0, self.keys[i].1.clone()));
            i += 1;
        }
        proof {
            assert forall|h: Seq<u8>| #[trigger] listed(keys@, h) == listed(self.keys@, h) by {
                if listed(keys@, h) {
                    let j = choose|j: int| 0 <= j < keys@.len() && (#[trigger] keys@[j]).0@ == h;
                    assert(self.keys@[j].0@ == h);
                }
                if listed(self.keys@, h) {
                    let j = choose|j: int|
                        0 <= j < self.keys@.len() && (#[trigger] self.keys@[j]).0@ == h;
                    assert(keys@[j].0@ == h);
                }
            }
            assert(distinct(keys@));
            assert forall|h: Seq<u8>| listed(keys@, h) implies #[trigger] table(keys@)[h] == table(
                self.keys@,
            )[h] by {
                let j = choose|j: int| 0 <= j < keys@.len() && (#[trigger] keys@[j]).0@ == h;
                lemma_table_at(keys@, j);
                lemma_table_at(self.keys@, j);
            }
            assert(table(keys@) =~= table(self.keys@));
        }
        AuthConfig { keys }
    }
}

} // verus!
