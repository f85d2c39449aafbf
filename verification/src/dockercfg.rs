//! Credentials from the Docker config: `auths` entries, and credential helpers
//! by registry or for all, so that what `docker login` saved works here.

use crate::strmap::StrMap;
use crate::text::{cut, law_cut_at_the_first, opt_text, pair_text, same, split_once, texts};
use base64::Engine;
use vstd::prelude::*;
use vstd::utf8::{decode_utf8, valid_utf8};

verus! {

/// The part of a Docker config that holds credentials.
#[derive(Debug, PartialEq, Eq)]
pub struct DockerConfig {
    pub auths: StrMap<AuthEntry>,
    pub cred_helpers: StrMap<String>,
    pub creds_store: Option<String>,
}

/// An inline entry.
#[derive(Debug, PartialEq, Eq)]
pub struct AuthEntry {
    /// `user:password` in base64.
    pub auth: Option<String>,
    pub username: Option<String>,
    pub password: Option<String>,
}

/// What an inline entry says.
pub struct AuthModel {
    pub auth: Option<Seq<char>>,
    pub username: Option<Seq<char>>,
    pub password: Option<Seq<char>>,
}

/// What a Docker config says of credentials.
pub struct ConfigModel {
    pub auths: Map<Seq<char>, AuthModel>,
    pub cred_helpers: Map<Seq<char>, Seq<char>>,
    pub creds_store: Option<Seq<char>>,
}

impl View for AuthEntry {
    type V = AuthModel;

    open spec fn view(&self) -> AuthModel {
        AuthModel {
            auth: opt_text(self.auth),
            username: opt_text(self.username),
            password: opt_text(self.password),
        }
    }
}

impl View for DockerConfig {
    type V = ConfigModel;

    open spec fn view(&self) -> ConfigModel {
        ConfigModel {
            auths: self.auths@,
            cred_helpers: self.cred_helpers@,
            creds_store: opt_text(self.creds_store),
        }
    }
}

/// The bytes that `base64`'s standard engine decodes a text to, if it can.
pub uninterp spec fn base64_decoded(s: Seq<char>) -> Option<Seq<u8>>;

/// `base64::Engine::decode` of the standard engine: the bytes that a text
/// stands for in the standard alphabet with padding, if it is well-formed.
#[verifier::external_body]
fn decode_base64(s: &str) -> (r: Option<Vec<u8>>)
    ensures
        (match r {
            Some(v) => Some(v@),
            None => None::<Seq<u8>>,
        }) == base64_decoded(s@),
{
    base64::engine::general_purpose::STANDARD.decode(s).ok()
}

/// `String::from_utf8`: the text that the bytes encode, if they are UTF-8.
#[verifier::external_body]
fn utf8_text(v: Vec<u8>) -> (r: Option<String>)
    ensures
        match r {
            Some(s) => valid_utf8(v@) && s@ == decode_utf8(v@),
            None => !valid_utf8(v@),
        },
{
    String::from_utf8(v).ok()
}

/// The credentials that the bytes of an `auth` field spell.
pub open spec fn auth_creds(bytes: Option<Seq<u8>>) -> Option<(Seq<char>, Seq<char>)> {
    match bytes {
        Some(b) => if valid_utf8(b) {
            cut(decode_utf8(b), ':')
        } else {
            None
        },
        None => None,
    }
}

/// The credentials of an inline entry: those of its `auth` field, of which
/// `bytes` are the decoded bytes, or else a user name with a password.
pub open spec fn entry_creds(a: AuthModel, bytes: Option<Seq<u8>>) -> Option<
    (Seq<char>, Seq<char>),
> {
    match auth_creds(bytes) {
        Some(c) => Some(c),
        None => match (a.username, a.password) {
            (Some(u), Some(p)) => Some((u, p)),
            _ => None,
        },
    }
}

/// The decoded bytes of an entry's `auth` field.
pub open spec fn auth_bytes(a: AuthModel) -> Option<Seq<u8>> {
    match a.auth {
        Some(s) => base64_decoded(s),
        None => None,
    }
}

impl AuthEntry {
    /// The credentials of the entry, given the decoded bytes of its `auth`
    /// field.
    pub fn creds_from(&self, bytes: Option<Vec<u8>>) -> (r: Option<(String, String)>)
        ensures
            pair_text(r) == entry_creds(
                self@,
                match bytes {
                    Some(b) => Some(b@),
                    None => None,
                },
            ),
    {
        if let Some(b) = bytes {
            if let Some(s) = utf8_text(b) {
                if let Some(c) = split_once(s.as_str(), ':') {
                    return Some(c);
                }
            }
        }
        match (&self.username, &self.password) {
            (Some(u), Some(p)) => Some((u.clone(), p.clone())),
            _ => None,
        }
    }

    /// The credentials of the entry.
    pub fn to_creds(&self) -> (r: Option<(String, String)>)
        ensures
            pair_text(r) == entry_creds(self@, auth_bytes(self@)),
    {
        let bytes = match &self.auth {
            Some(s) => decode_base64(s.as_str()),
            None => None,
        };
        self.creds_from(bytes)
    }
}

/// The keys under which a registry may be filed, in the order in which they
/// are tried.
pub open spec fn keys_for(registry: Seq<char>) -> Seq<Seq<char>> {
    if registry == "docker.io"@ || registry == "registry-1.docker.io"@ || registry
        == "index.docker.io"@ {
        seq![registry, "https://"@ + registry, "https://index.docker.io/v1/"@]
    } else {
        seq![registry, "https://"@ + registry]
    }
}

/// The keys under which a registry may be filed.
pub fn candidate_keys(registry: &str) -> (r: Vec<String>)
    ensures
        texts(r@) == keys_for(registry@),
{
    let mut url = "https://".to_owned();
    url.push_str(registry);
    let mut r: Vec<String> = Vec::new();
    r.push(registry.to_owned());
    r.push(url);
    if same(registry, "docker.io") || same(registry, "registry-1.docker.io") || same(
        registry,
        "index.docker.io",
    ) {
        r.push("https://index.docker.io/v1/".to_owned());
    }
    assert(texts(r@) =~= keys_for(registry@));
    r
}

/// A question to a credential helper.
#[derive(Debug, PartialEq, Eq)]
pub struct Query {
    pub helper: String,
    pub server: String,
}

/// A question to a credential helper: the helper and the server.
pub open spec fn query_text(q: Query) -> (Seq<char>, Seq<char>) {
    (q.helper@, q.server@)
}

/// The questions to the helpers that the config names for one of `keys`.
pub open spec fn helper_queries(helpers: Map<Seq<char>, Seq<char>>, keys: Seq<Seq<char>>) -> Seq<
    (Seq<char>, Seq<char>),
>
    decreases keys.len(),
{
    if keys.len() == 0 {
        Seq::empty()
    } else {
        let before = helper_queries(helpers, keys.drop_last());
        if helpers.contains_key(keys.last()) {
            before.push((helpers[keys.last()], keys.last()))
        } else {
            before
        }
    }
}

/// The questions to the helper for all registries, one for each of `keys`.
pub open spec fn store_queries(store: Option<Seq<char>>, keys: Seq<Seq<char>>) -> Seq<
    (Seq<char>, Seq<char>),
> {
    match store {
        Some(h) => Seq::new(keys.len(), |i: int| (h, keys[i])),
        None => Seq::empty(),
    }
}

/// All questions, in the order in which they are asked: a helper for the
/// registry comes before the helper for all.
pub open spec fn queries(c: ConfigModel, registry: Seq<char>) -> Seq<(Seq<char>, Seq<char>)> {
    helper_queries(c.cred_helpers, keys_for(registry)) + store_queries(
        c.creds_store,
        keys_for(registry),
    )
}

/// The credentials of the first of `keys` that has an inline entry with some.
pub open spec fn inline_creds(
    auths: Map<Seq<char>, AuthModel>,
    keys: Seq<Seq<char>>,
) -> Option<(Seq<char>, Seq<char>)>
    decreases keys.len(),
{
    if keys.len() == 0 {
        None
    } else {
        match inline_creds(auths, keys.drop_last()) {
            Some(c) => Some(c),
            None => if auths.contains_key(keys.last()) {
                entry_creds(auths[keys.last()], auth_bytes(auths[keys.last()]))
            } else {
                None
            },
        }
    }
}

/// The first reply that has credentials.
pub open spec fn first_reply(replies: Seq<Option<(Seq<char>, Seq<char>)>>) -> Option<
    (Seq<char>, Seq<char>),
>
    decreases replies.len(),
{
    if replies.len() == 0 {
        None
    } else {
        match first_reply(replies.drop_last()) {
            Some(c) => Some(c),
            None => replies.last(),
        }
    }
}

/// The next step of a lookup.
#[derive(Debug, PartialEq, Eq)]
pub enum Step {
    /// Ask this helper.
    Ask(Query),
    /// These are the credentials, if there are any.
    Done(Option<(String, String)>),
}

/// The next step of a lookup: helper and server, or the credentials.
pub enum StepModel {
    Ask((Seq<char>, Seq<char>)),
    Done(Option<(Seq<char>, Seq<char>)>),
}

impl View for Step {
    type V = StepModel;

    open spec fn view(&self) -> StepModel {
        match *self {
            Step::Ask(q) => StepModel::Ask(query_text(q)),
            Step::Done(c) => StepModel::Done(pair_text(c)),
        }
    }
}

/// The replies of the helpers, in order.
pub open spec fn reply_texts(v: Seq<Option<(String, String)>>) -> Seq<
    Option<(Seq<char>, Seq<char>)>,
> {
    Seq::new(v.len(), |i: int| pair_text(v[i]))
}

/// What follows when these helpers have replied: the first credentials that
/// came back, else the next question, else the inline entries.
pub open spec fn next_step(
    c: ConfigModel,
    registry: Seq<char>,
    replies: Seq<Option<(Seq<char>, Seq<char>)>>,
) -> StepModel {
    if first_reply(replies) is Some {
        StepModel::Done(first_reply(replies))
    } else if replies.len() < queries(c, registry).len() {
        StepModel::Ask(queries(c, registry)[replies.len() as int])
    } else {
        StepModel::Done(inline_creds(c.auths, keys_for(registry)))
    }
}

/// All questions to helpers.
fn all_queries(cfg: &DockerConfig, keys: &Vec<String>, Ghost(registry): Ghost<Seq<char>>) -> (r:
    Vec<Query>)
    requires
        texts(keys@) == keys_for(registry),
    ensures
        Seq::new(r@.len(), |i: int| query_text(r@[i])) == queries(cfg@, registry),
{
    let mut r: Vec<Query> = Vec::new();
    let ghost ks = texts(keys@);
    let mut i: usize = 0;
    while i < keys.len()
        invariant
            i <= keys.len(),
            ks == texts(keys@),
            Seq::new(r@.len(), |j: int| query_text(r@[j])) == helper_queries(
                cfg@.cred_helpers,
                ks.take(i as int),
            ),
        decreases keys.len() - i,
    {
        let ghost before = Seq::new(r@.len(), |j: int| query_text(r@[j]));
        proof {
            assert(ks.take(i + 1).drop_last() =~= ks.take(i as int));
            assert(ks.take(i + 1).last() == keys@[i as int]@);
        }
        if let Some(h) = cfg.cred_helpers.get(keys[i].as_str()) {
            r.push(Query { helper: h.clone(), server: keys[i].clone() });
            assert(Seq::new(r@.len(), |j: int| query_text(r@[j])) =~= before.push(
                (h@, keys@[i as int]@),
            ));
        }
        i = i + 1;
    }
    assert(ks.take(ks.len() as int) =~= ks);
    let ghost first = helper_queries(cfg@.cred_helpers, ks);
    let ghost second = store_queries(cfg@.creds_store, ks);
    if let Some(store) = &cfg.creds_store {
        i = 0;
        assert(first + second.take(0) =~= first);
        while i < keys.len()
            invariant
                i <= keys.len(),
                ks == texts(keys@),
                second == Seq::new(ks.len(), |i: int| (store@, ks[i])),
                Seq::new(r@.len(), |j: int| query_text(r@[j])) == first + second.take(i as int),
            decreases keys.len() - i,
        {
            let ghost before = Seq::new(r@.len(), |j: int| query_text(r@[j]));
            r.push(Query { helper: store.clone(), server: keys[i].clone() });
            proof {
                assert(Seq::new(r@.len(), |j: int| query_text(r@[j])) =~= before.push(
                    (store@, keys@[i as int]@),
                ));
                assert(first + second.take(i + 1) =~= before.push(second[i as int]));
            }
            i = i + 1;
        }
        assert(second.take(second.len() as int) =~= second);
    } else {
        assert(first + second =~= first);
    }
    r
}

/// The credentials of the inline entries.
fn from_auths(cfg: &DockerConfig, keys: &Vec<String>) -> (r: Option<(String, String)>)
    ensures
        pair_text(r) == inline_creds(cfg@.auths, texts(keys@)),
{
    let ghost ks = texts(keys@);
    let mut i: usize = 0;
    while i < keys.len()
        invariant
            i <= keys.len(),
            ks == texts(keys@),
            inline_creds(cfg@.auths, ks.take(i as int)) is None,
        decreases keys.len() - i,
    {
        proof {
            assert(ks.take(i + 1).drop_last() =~= ks.take(i as int));
            assert(ks.take(i + 1).last() == keys@[i as int]@);
        }
        if let Some(entry) = cfg.auths.get(keys[i].as_str()) {
            if let Some(c) = entry.to_creds() {
                proof {
                    lemma_inline_stays(cfg@.auths, ks, i + 1);
                }
                return Some(c);
            }
        }
        i = i + 1;
    }
    assert(ks.take(ks.len() as int) =~= ks);
    None
}

proof fn lemma_inline_stays(auths: Map<Seq<char>, AuthModel>, keys: Seq<Seq<char>>, n: int)
    requires
        0 <= n <= keys.len(),
        inline_creds(auths, keys.take(n)) is Some,
    ensures
        inline_creds(auths, keys) == inline_creds(auths, keys.take(n)),
    decreases keys.len(),
{
    if n < keys.len() {
        assert(keys.drop_last().take(n) =~= keys.take(n));
        lemma_inline_stays(auths, keys.drop_last(), n);
    } else {
        assert(keys.take(n) =~= keys);
    }
}

proof fn lemma_reply_stays(replies: Seq<Option<(Seq<char>, Seq<char>)>>, n: int)
    requires
        0 <= n <= replies.len(),
        first_reply(replies.take(n)) is Some,
    ensures
        first_reply(replies) == first_reply(replies.take(n)),
    decreases replies.len(),
{
    if n < replies.len() {
        assert(replies.drop_last().take(n) =~= replies.take(n));
        lemma_reply_stays(replies.drop_last(), n);
    } else {
        assert(replies.take(n) =~= replies);
    }
}

/// The next step of the lookup of a registry's credentials, given what the
/// helpers that were asked so far have replied.
pub fn lookup(
    cfg: &DockerConfig,
    registry: &str,
    replies: &Vec<Option<(String, String)>>,
) -> (r: Step)
    ensures
        r@ == next_step(cfg@, registry@, reply_texts(replies@)),
{
    let ghost rs = reply_texts(replies@);
    let mut i: usize = 0;
    while i < replies.len()
        invariant
            i <= replies.len(),
            rs == reply_texts(replies@),
            first_reply(rs.take(i as int)) is None,
        decreases replies.len() - i,
    {
        proof {
            assert(rs.take(i + 1).drop_last() =~= rs.take(i as int));
            assert(rs.take(i + 1).last() == pair_text(replies@[i as int]));
        }
        if let Some((u, p)) = &replies[i] {
            proof {
                lemma_reply_stays(rs, i + 1);
            }
            return Step::Done(Some((u.clone(), p.clone())));
        }
        i = i + 1;
    }
    assert(rs.take(rs.len() as int) =~= rs);
    let keys = candidate_keys(registry);
    let mut all = all_queries(cfg, &keys, Ghost(registry@));
    let n = replies.len();
    if n < all.len() {
        assert(queries(cfg@, registry@)[n as int] == query_text(all@[n as int]));
        return Step::Ask(all.swap_remove(n));
    }
    assert(Seq::new(all@.len(), |i: int| query_text(all@[i])).len() == all@.len());
    Step::Done(from_auths(cfg, &keys))
}

/// The credentials in a helper's reply: none where the helper failed or gave no
/// secret.
pub fn helper_creds(success: bool, username: String, secret: String) -> (r: Option<
    (String, String),
>)
    ensures
        pair_text(r) == (if success && secret@.len() > 0 {
            Some((username@, secret@))
        } else {
            None
        }),
{
    if !success || secret.as_str().is_empty() {
        None
    } else {
        Some((username, secret))
    }
}

/// A reply with credentials ends the lookup, whatever the config holds inline.
pub proof fn law_helpers_come_first(
    c: ConfigModel,
    registry: Seq<char>,
    replies: Seq<Option<(Seq<char>, Seq<char>)>>,
    creds: (Seq<char>, Seq<char>),
)
    requires
        first_reply(replies) is None,
    ensures
        next_step(c, registry, replies.push(Some(creds))) == StepModel::Done(Some(creds)),
{
    assert(replies.push(Some(creds)).drop_last() =~= replies);
}

/// A registry that the config does not know under any of its keys has no
/// credentials.
pub proof fn law_unknown_registry_has_none(c: ConfigModel, registry: Seq<char>)
    requires
        c.creds_store is None,
        forall|i: int|
            0 <= i < keys_for(registry).len() ==> !c.cred_helpers.contains_key(
                #[trigger] keys_for(registry)[i],
            ) && !c.auths.contains_key(keys_for(registry)[i]),
    ensures
        next_step(c, registry, Seq::empty()) == StepModel::Done(None),
{
    lemma_none_known(c, keys_for(registry));
    assert(queries(c, registry).len() == 0);
}

proof fn lemma_none_known(c: ConfigModel, keys: Seq<Seq<char>>)
    requires
        forall|i: int|
            0 <= i < keys.len() ==> !c.cred_helpers.contains_key(#[trigger] keys[i])
                && !c.auths.contains_key(keys[i]),
    ensures
        helper_queries(c.cred_helpers, keys).len() == 0,
        inline_creds(c.auths, keys) is None,
    decreases keys.len(),
{
    if keys.len() > 0 {
        let t = keys.drop_last();
        assert forall|i: int| 0 <= i < t.len() implies !c.cred_helpers.contains_key(#[trigger] t[i])
            && !c.auths.contains_key(t[i]) by {
            assert(t[i] == keys[i]);
        }
        lemma_none_known(c, t);
        assert(!c.cred_helpers.contains_key(keys[keys.len() - 1]));
    }
}

/// A registry is looked for under its name, then under its address, and one of
/// Docker's own under the address of their index too.
pub proof fn law_registry_keys(registry: Seq<char>)
    ensures
        keys_for(registry).len() == (if registry == "docker.io"@ || registry
            == "registry-1.docker.io"@ || registry == "index.docker.io"@ {
            3int
        } else {
            2
        }),
        keys_for(registry)[0] == registry,
        keys_for(registry)[1] == "https://"@ + registry,
        keys_for(registry).len() == 3 ==> keys_for(registry)[2] == "https://index.docker.io/v1/"@,
{
}

/// An entry whose `auth` decodes to a user name, a colon and a password has these
/// credentials: the user name ends at the first colon. Where it decodes to nothing
/// of that form, a user name with a password counts, and else nothing.
pub proof fn law_entry_credentials(a: AuthModel, bytes: Seq<u8>, user: Seq<char>, secret: Seq<char>)
    requires
        !user.contains(':'),
    ensures
        valid_utf8(bytes) && decode_utf8(bytes) == user.push(':') + secret ==> entry_creds(
            a,
            Some(bytes),
        ) == Some((user, secret)),
        !valid_utf8(bytes) || !decode_utf8(bytes).contains(':') ==> entry_creds(a, Some(bytes))
            == entry_creds(a, None),
        a.username is Some && a.password is Some ==> entry_creds(a, None) == Some(
            (a.username->0, a.password->0),
        ),
        a.username is None || a.password is None ==> entry_creds(a, None) is None,
{
    let s = user.push(':') + secret;
    law_cut_at_the_first(s, ':');
    assert(s[user.len() as int] == ':');
    assert(s.contains(':'));
    match cut(s, ':') {
        Some((x, y)) => {
            assert(x.len() == user.len()) by {
                if x.len() < user.len() {
                    assert((x.push(':') + y)[x.len() as int] == ':');
                    assert(user.contains(user[x.len() as int]));
                } else if x.len() > user.len() {
                    assert(s[user.len() as int] == x[user.len() as int]);
                    assert(x.contains(x[user.len() as int]));
                }
            }
            assert(x =~= s.take(user.len() as int));
            assert(user =~= s.take(user.len() as int));
            assert(y =~= s.skip(user.len() as int + 1));
            assert(secret =~= s.skip(user.len() as int + 1));
        },
        None => {},
    }
    if valid_utf8(bytes) && !decode_utf8(bytes).contains(':') {
        let d = decode_utf8(bytes);
        law_cut_at_the_first(d, ':');
        match cut(d, ':') {
            Some((x, y)) => {
                assert((x.push(':') + y)[x.len() as int] == ':');
                assert(d.contains(d[x.len() as int]));
            },
            None => {},
        }
    }
}

/// The credentials of the inline entries are those of the first key that has some,
/// and there are none where no key has.
pub proof fn law_first_entry_counts(auths: Map<Seq<char>, AuthModel>, keys: Seq<Seq<char>>, i: int)
    requires
        0 <= i <= keys.len(),
        forall|j: int|
            0 <= j < i ==> !(auths.contains_key(#[trigger] keys[j]) && entry_creds(
                auths[keys[j]],
                auth_bytes(auths[keys[j]]),
            ) is Some),
        i < keys.len() ==> auths.contains_key(keys[i]) && entry_creds(
            auths[keys[i]],
            auth_bytes(auths[keys[i]]),
        ) is Some,
    ensures
        i < keys.len() ==> inline_creds(auths, keys) == entry_creds(
            auths[keys[i]],
            auth_bytes(auths[keys[i]]),
        ),
        i == keys.len() ==> inline_creds(auths, keys) is None,
    decreases keys.len(),
{
    if keys.len() > 0 {
        let t = keys.drop_last();
        let k = if i < keys.len() {
            i
        } else {
            t.len() as int
        };
        assert forall|j: int| 0 <= j < k && j < t.len() implies !(auths.contains_key(
            #[trigger] t[j],
        ) && entry_creds(auths[t[j]], auth_bytes(auths[t[j]])) is Some) by {
            assert(t[j] == keys[j]);
        }
        if k < t.len() {
            assert(t[k] == keys[k]);
        }
        law_first_entry_counts(auths, t, k);
        assert(keys[keys.len() - 1] == keys.last());
    }
}

/// The first helper that replied with credentials decides; a later one does not.
pub proof fn law_first_reply_counts(replies: Seq<Option<(Seq<char>, Seq<char>)>>, i: int)
    requires
        0 <= i <= replies.len(),
        forall|j: int| 0 <= j < i ==> (#[trigger] replies[j]) is None,
        i < replies.len() ==> replies[i] is Some,
    ensures
        i < replies.len() ==> first_reply(replies) == replies[i],
        i == replies.len() ==> first_reply(replies) is None,
    decreases replies.len(),
{
    if replies.len() > 0 {
        let t = replies.drop_last();
        let k = if i < replies.len() {
            i
        } else {
            t.len() as int
        };
        assert forall|j: int| 0 <= j < k && j < t.len() implies (#[trigger] t[j]) is None by {
            assert(t[j] == replies[j]);
        }
        if k < t.len() {
            assert(t[k] == replies[k]);
        }
        law_first_reply_counts(t, k);
        assert(replies[replies.len() - 1] == replies.last());
    }
}

/// Every key that has a helper of its own is asked of that helper, in order, and
/// then every key of the helper for all, where there is one. Nothing else is asked.
pub proof fn law_every_helper_is_asked(c: ConfigModel, registry: Seq<char>, i: int)
    requires
        0 <= i < keys_for(registry).len(),
    ensures
        ({
            let all = queries(c, registry);
            let key = keys_for(registry)[i];
            let n = keys_for(registry).len();
            let own = helper_queries(c.cred_helpers, keys_for(registry)).len();
            &&& all.len() == own + (if c.creds_store is Some {
                n as int
            } else {
                0
            })
            &&& c.cred_helpers.contains_key(key) ==> exists|j: int|
                0 <= j < own && #[trigger] all[j] == (c.cred_helpers[key], key)
            &&& c.creds_store matches Some(h) ==> all[own + i] == (h, key)
            &&& forall|j: int|
                0 <= j < own ==> c.cred_helpers.contains_key((#[trigger] all[j]).1)
                    && c.cred_helpers[all[j].1] == all[j].0 && keys_for(registry).contains(all[j].1)
        }),
{
    let keys = keys_for(registry);
    lemma_helpers_asked(c.cred_helpers, keys, i);
    let own = helper_queries(c.cred_helpers, keys);
    let all = queries(c, registry);
    if c.cred_helpers.contains_key(keys[i]) {
        let j = choose|j: int|
            0 <= j < own.len() && #[trigger] own[j] == (c.cred_helpers[keys[i]], keys[i]);
        assert(all[j] == own[j]);
    }
    assert forall|j: int| 0 <= j < own.len() implies c.cred_helpers.contains_key(
        (#[trigger] all[j]).1,
    ) && c.cred_helpers[all[j].1] == all[j].0 && keys.contains(all[j].1) by {
        assert(all[j] == own[j]);
    }
}

proof fn lemma_helpers_asked(helpers: Map<Seq<char>, Seq<char>>, keys: Seq<Seq<char>>, i: int)
    ensures
        0 <= i < keys.len() && helpers.contains_key(keys[i]) ==> exists|j: int|
            0 <= j < helper_queries(helpers, keys).len() && #[trigger] helper_queries(
                helpers,
                keys,
            )[j] == (helpers[keys[i]], keys[i]),
        forall|j: int|
            0 <= j < helper_queries(helpers, keys).len() ==> helpers.contains_key(
                (#[trigger] helper_queries(helpers, keys)[j]).1,
            ) && helpers[helper_queries(helpers, keys)[j].1] == helper_queries(helpers, keys)[j].0
                && keys.contains(helper_queries(helpers, keys)[j].1),
    decreases keys.len(),
{
    if keys.len() > 0 {
        let t = keys.drop_last();
        let before = helper_queries(helpers, t);
        let now = helper_queries(helpers, keys);
        lemma_helpers_asked(helpers, t, i);
        if 0 <= i < t.len() && helpers.contains_key(keys[i]) {
            assert(t[i] == keys[i]);
            let j = choose|j: int|
                0 <= j < before.len() && #[trigger] before[j] == (helpers[t[i]], t[i]);
            assert(now[j] == before[j]);
        }
        if i == keys.len() - 1 && helpers.contains_key(keys[i]) {
            assert(now[now.len() - 1] == (helpers[keys[i]], keys[i]));
        }
        assert forall|j: int| 0 <= j < now.len() implies helpers.contains_key(
            (#[trigger] now[j]).1,
        ) && helpers[now[j].1] == now[j].0 && keys.contains(now[j].1) by {
            if j < before.len() {
                assert(now[j] == before[j]);
                let x = choose|x: int| 0 <= x < t.len() && t[x] == before[j].1;
                assert(keys[x] == now[j].1);
            } else {
                assert(keys[keys.len() - 1] == now[j].1);
            }
        }
    }
}

/// A lookup ends with the first credentials that a helper replied; while there are
/// none it asks the next helper, and when all were asked it ends with what the
/// inline entries have.
pub proof fn law_lookup_goes_on(
    c: ConfigModel,
    registry: Seq<char>,
    replies: Seq<Option<(Seq<char>, Seq<char>)>>,
    i: int,
)
    requires
        0 <= i <= replies.len(),
        forall|j: int| 0 <= j < i ==> (#[trigger] replies[j]) is None,
        i < replies.len() ==> replies[i] is Some,
    ensures
        i < replies.len() ==> next_step(c, registry, replies) == StepModel::Done(replies[i]),
        i == replies.len() && i < queries(c, registry).len() ==> next_step(c, registry, replies)
            == StepModel::Ask(queries(c, registry)[i]),
        i == replies.len() && i >= queries(c, registry).len() ==> next_step(c, registry, replies)
            == StepModel::Done(inline_creds(c.auths, keys_for(registry))),
{
    law_first_reply_counts(replies, i);
}

/// What replies say is what each of them says, in order; what a config and its
/// entries say is what their parts say.
pub proof fn law_config_says_all(
    c: DockerConfig,
    a: AuthEntry,
    replies: Seq<Option<(String, String)>>,
    i: int,
)
    ensures
        c@.auths == c.auths@,
        c@.cred_helpers == c.cred_helpers@,
        c@.creds_store == opt_text(c.creds_store),
        a@.auth == opt_text(a.auth),
        a@.username == opt_text(a.username),
        a@.password == opt_text(a.password),
        reply_texts(replies).len() == replies.len(),
        0 <= i < replies.len() ==> reply_texts(replies)[i] == pair_text(replies[i]),
{
}

/// A question asks its own helper for its own server, and a step says what it is.
pub proof fn law_steps_say_all(q: Query, c: Option<(String, String)>)
    ensures
        query_text(q) == (q.helper@, q.server@),
        Step::Ask(q)@ == StepModel::Ask((q.helper@, q.server@)),
        Step::Done(c)@ == StepModel::Done(pair_text(c)),
{
}

} // verus!
