//! What the bridge remembers between events.

use moka::sync::Cache as MokaCache;
use std::time::Duration;
use vstd::prelude::*;

use crate::db::{UserPreference, UserPreferenceView};
use crate::number;
use crate::table;
use crate::table::{Duplicate, TextMap};
use crate::text;
use crate::web;

verus! {

/// `moka::sync::Cache`, a map that drops entries when it is full or when they lie idle.
#[verifier::external_type_specification]
#[verifier::external_body]
#[verifier::reject_recursive_types(K)]
#[verifier::reject_recursive_types(V)]
#[verifier::reject_recursive_types(S)]
pub struct ExMokaCache<K, V, S>(MokaCache<K, V, S>);

/// Whether one map has only entries of another.
pub open spec fn within<K, V>(part: Map<K, V>, whole: Map<K, V>) -> bool {
    forall|k: K| #[trigger] part.contains_key(k) ==> whole.contains_key(k) && part[k] == whole[k]
}

/// What an optional value says.
pub open spec fn opt_view<T: View>(value: Option<T>) -> Option<T::V> {
    match value {
        Some(v) => Some(v@),
        None => None,
    }
}

/// A member of a Matrix room.
#[derive(Debug)]
pub struct MatrixUser {
    pub avatar_url: Option<String>,
    pub display_name: Option<String>,
}

/// What is known of a member of a Matrix room.
pub struct MatrixUserView {
    pub avatar_url: Option<Seq<char>>,
    pub display_name: Option<Seq<char>>,
}

impl View for MatrixUser {
    type V = MatrixUserView;

    open spec fn view(&self) -> MatrixUserView {
        MatrixUserView {
            avatar_url: web::opt_text(self.avatar_url),
            display_name: web::opt_text(self.display_name),
        }
    }
}

impl Duplicate for MatrixUser {
    fn duplicate(&self) -> (copy: Self) {
        MatrixUser {
            avatar_url: text::copy_optional(&self.avatar_url),
            display_name: text::copy_optional(&self.display_name),
        }
    }
}

/// A Discord webhook through which the bridge posts.
#[derive(Debug)]
pub struct WebhookInfo {
    pub id: String,
    pub token: String,
}

/// What a webhook is known by.
pub struct WebhookView {
    pub id: Seq<char>,
    pub token: Seq<char>,
}

impl View for WebhookInfo {
    type V = WebhookView;

    open spec fn view(&self) -> WebhookView {
        WebhookView { id: self.id@, token: self.token@ }
    }
}

impl Duplicate for WebhookInfo {
    fn duplicate(&self) -> (copy: Self) {
        WebhookInfo { id: self.id.clone(), token: self.token.clone() }
    }
}

/// A value that is remembered.
pub enum CacheEntry {
    Text(String),
    Texts(TextMap<String>),
    Members(TextMap<MatrixUser>),
    Webhook(WebhookInfo),
    Bytes(Vec<u8>),
    Preference(Option<UserPreference>),
}

/// What a remembered value says.
pub enum EntryView {
    Text(Seq<char>),
    Texts(Map<Seq<char>, Seq<char>>),
    Members(Map<Seq<char>, MatrixUserView>),
    Webhook(WebhookView),
    Bytes(Seq<u8>),
    Preference(Option<UserPreferenceView>),
}

impl View for CacheEntry {
    type V = EntryView;

    open spec fn view(&self) -> EntryView {
        match self {
            CacheEntry::Text(s) => EntryView::Text(s@),
            CacheEntry::Texts(map) => EntryView::Texts(map@),
            CacheEntry::Members(map) => EntryView::Members(map@),
            CacheEntry::Webhook(webhook) => EntryView::Webhook(webhook@),
            CacheEntry::Bytes(bytes) => EntryView::Bytes(bytes@),
            CacheEntry::Preference(preference) => EntryView::Preference(
                preference_view(*preference),
            ),
        }
    }
}

/// What an optional preference says.
pub open spec fn preference_view(preference: Option<UserPreference>) -> Option<UserPreferenceView> {
    match preference {
        Some(p) => Some(p@),
        None => None,
    }
}

impl Clone for CacheEntry {
    fn clone(&self) -> (res: Self)
        ensures
            res@ == self@,
    {
        match self {
            CacheEntry::Text(s) => CacheEntry::Text(s.clone()),
            CacheEntry::Texts(map) => CacheEntry::Texts(map.duplicate()),
            CacheEntry::Members(map) => CacheEntry::Members(map.duplicate()),
            CacheEntry::Webhook(webhook) => CacheEntry::Webhook(webhook.duplicate()),
            CacheEntry::Bytes(bytes) => {
                let copy = bytes.clone();
                assert(copy@ =~= bytes@);
                CacheEntry::Bytes(copy)
            },
            CacheEntry::Preference(preference) => CacheEntry::Preference(
                match preference {
                    Some(p) => Some(p.duplicate()),
                    None => None,
                },
            ),
        }
    }
}

/// How much an entry counts toward the capacity of its cache: bytes by their number, everything
/// else once.
pub fn entry_weight(entry: &CacheEntry) -> (weight: u32)
    ensures
        weight == match entry@ {
            EntryView::Bytes(bytes) => if bytes.len() <= u32::MAX {
                bytes.len() as u32
            } else {
                u32::MAX
            },
            _ => 1,
        },
{
    match entry {
        CacheEntry::Bytes(bytes) => {
            let length: usize = bytes.len();
            if length as u64 <= u32::MAX as u64 {
                length as u32
            } else {
                u32::MAX
            }
        },
        _ => 1,
    }
}

impl CacheEntry {
    /// The text that was found in a cache, if anything was.
    pub fn text_found(found: Option<CacheEntry>) -> (res: Option<String>)
        ensures
            res is Some <==> (found matches Some(entry) && entry@ is Text),
            res matches Some(s) ==> found->0@ == EntryView::Text(s@),
    {
        match found {
            Some(CacheEntry::Text(s)) => Some(s),
            _ => None,
        }
    }

    /// The map of texts that was found in a cache, if anything was.
    pub fn texts_found(found: Option<CacheEntry>) -> (res: Option<TextMap<String>>)
        ensures
            res is Some <==> (found matches Some(entry) && entry@ is Texts),
            res matches Some(map) ==> found->0@ == EntryView::Texts(map@),
    {
        match found {
            Some(CacheEntry::Texts(map)) => Some(map),
            _ => None,
        }
    }

    /// The map of members that was found in a cache, if anything was.
    pub fn members_found(found: Option<CacheEntry>) -> (res: Option<TextMap<MatrixUser>>)
        ensures
            res is Some <==> (found matches Some(entry) && entry@ is Members),
            res matches Some(map) ==> found->0@ == EntryView::Members(map@),
    {
        match found {
            Some(CacheEntry::Members(map)) => Some(map),
            _ => None,
        }
    }

    /// The webhook that was found in a cache, if anything was.
    pub fn webhook_found(found: Option<CacheEntry>) -> (res: Option<WebhookInfo>)
        ensures
            res is Some <==> (found matches Some(entry) && entry@ is Webhook),
            res matches Some(webhook) ==> found->0@ == EntryView::Webhook(webhook@),
    {
        match found {
            Some(CacheEntry::Webhook(webhook)) => Some(webhook),
            _ => None,
        }
    }

    /// The file that was found in a cache, if anything was.
    pub fn bytes_found(found: Option<CacheEntry>) -> (res: Option<Vec<u8>>)
        ensures
            res is Some <==> (found matches Some(entry) && entry@ is Bytes),
            res matches Some(bytes) ==> found->0@ == EntryView::Bytes(bytes@),
    {
        match found {
            Some(CacheEntry::Bytes(bytes)) => Some(bytes),
            _ => None,
        }
    }

    /// The preference that was found in a cache, if anything was.
    pub fn preference_found(found: Option<CacheEntry>) -> (res: Option<Option<UserPreference>>)
        ensures
            res is Some <==> (found matches Some(entry) && entry@ is Preference),
            res matches Some(preference) ==> found->0@ == EntryView::Preference(
                preference_view(preference),
            ),
    {
        match found {
            Some(CacheEntry::Preference(preference)) => Some(preference),
            _ => None,
        }
    }
}

/// Whether a walk over a cache met an entry with the key `key`.
pub open spec fn is_met(entries: Seq<(String, CacheEntry)>, key: Seq<char>) -> bool {
    exists|i: int| 0 <= i < entries.len() && (#[trigger] entries[i]).0@ == key
}

/// An entry of a walk is what the map of all of them has under its key.
proof fn lemma_met_entry(entries: Seq<(String, CacheEntry)>, i: int)
    requires
        table::keys_of(entries).no_duplicates(),
        0 <= i < entries.len(),
    ensures
        table::map_of(entries).contains_key(entries[i].0@),
        table::map_of(entries)[entries[i].0@] == entries[i].1@,
{
    assert forall|m: int| i < m < entries.len() implies (#[trigger] entries[m]).0@
        != entries[i].0@ by {
        assert(table::keys_of(entries)[m] != table::keys_of(entries)[i]);
    }
    table::lemma_map_entry(entries, i);
}

/// Whether one of the entries of a walk is a webhook with the number `id`.
pub fn lists_webhook(entries: &Vec<(String, CacheEntry)>, id: &str) -> (res: bool)
    ensures
        res == exists|i: int|
            0 <= i < entries@.len() && (#[trigger] entries@[i]).1@ is Webhook
                && entries@[i].1@->Webhook_0.id == id@,
{
    let length: usize = entries.len();
    let mut i: usize = 0;
    while i < length
        invariant
            length == entries@.len(),
            i <= length,
            forall|j: int|
                0 <= j < i ==> !((#[trigger] entries@[j]).1@ is Webhook
                    && entries@[j].1@->Webhook_0.id == id@),
        decreases length - i,
    {
        let matching = match &entries[i].1 {
            CacheEntry::Webhook(webhook) => text::same(webhook.id.as_str(), id),
            _ => false,
        };
        if matching {
            assert(entries@[i as int].1@ is Webhook);
            return true;
        }
        i += 1;
    }
    false
}

/// The keys of the entries that hold the text `value`, in order.
pub open spec fn keys_holding(entries: Seq<(String, CacheEntry)>, value: Seq<char>) -> Seq<
    Seq<char>,
>
    decreases entries.len(),
{
    if entries.len() == 0 {
        Seq::empty()
    } else {
        let rest = keys_holding(entries.drop_last(), value);
        if entries.last().1@ == EntryView::Text(value) {
            rest.push(entries.last().0@)
        } else {
            rest
        }
    }
}

/// A key is listed if and only if one of its entries holds the text.
proof fn lemma_keys_holding(entries: Seq<(String, CacheEntry)>, value: Seq<char>, key: Seq<char>)
    ensures
        keys_holding(entries, value).contains(key) <==> exists|i: int|
            0 <= i < entries.len() && (#[trigger] entries[i]).0@ == key && entries[i].1@
                == EntryView::Text(value),
    decreases entries.len(),
{
    if entries.len() > 0 {
        let shorter = entries.drop_last();
        let rest = keys_holding(shorter, value);
        let all = keys_holding(entries, value);
        let last = entries.len() - 1;
        lemma_keys_holding(shorter, value, key);
        if all.contains(key) {
            let i = all.index_of(key);
            if i < rest.len() {
                assert(rest[i] == key);
                let j = choose|j: int|
                    0 <= j < shorter.len() && (#[trigger] shorter[j]).0@ == key && shorter[j].1@
                        == EntryView::Text(value);
                assert(entries[j] == shorter[j]);
            } else {
                assert(entries[last].0@ == key);
            }
        }
        if exists|i: int|
            0 <= i < entries.len() && (#[trigger] entries[i]).0@ == key && entries[i].1@
                == EntryView::Text(value) {
            let i = choose|i: int|
                0 <= i < entries.len() && (#[trigger] entries[i]).0@ == key && entries[i].1@
                    == EntryView::Text(value);
            if i < last {
                assert(shorter[i] == entries[i]);
                let j = rest.index_of(key);
                assert(all[j] == key);
            } else {
                assert(all[all.len() - 1] == key);
            }
        }
    }
}

/// The keys of the entries of a walk that hold the text `value`, in order.
pub fn keys_with_text(entries: &Vec<(String, CacheEntry)>, value: &str) -> (keys: Vec<String>)
    ensures
        text::texts(keys@) == keys_holding(entries@, value@),
{
    let length: usize = entries.len();
    let mut keys: Vec<String> = Vec::new();
    let mut i: usize = 0;
    proof {
        assert(text::texts(keys@) =~= keys_holding(entries@.take(0), value@));
    }
    while i < length
        invariant
            length == entries@.len(),
            i <= length,
            text::texts(keys@) == keys_holding(entries@.take(i as int), value@),
        decreases length - i,
    {
        let matching = match &entries[i].1 {
            CacheEntry::Text(s) => text::same(s.as_str(), value),
            _ => false,
        };
        let ghost before = text::texts(keys@);
        let ghost longer = entries@.take(i + 1);
        assert(longer.drop_last() =~= entries@.take(i as int));
        assert(longer.last() == entries@[i as int]);
        if matching {
            keys.push(entries[i].0.clone());
            assert(text::texts(keys@) =~= before.push(entries@[i as int].0@));
        }
        i += 1;
    }
    assert(entries@.take(length as int) =~= entries@);
    keys
}

/// What was put into a cache and not taken out since. The cache drops entries when it is full or
/// when they lie idle, and then does not find them; but whatever it finds is here.
pub uninterp spec fn cache_contents(cache: MokaCache<String, CacheEntry>) -> Map<
    Seq<char>,
    EntryView,
>;

/// The keys whose entries are known to be dropped: a walk did not meet them, and nothing was put in
/// under them since. Nothing is found under them.
pub uninterp spec fn cache_lost(cache: MokaCache<String, CacheEntry>) -> Set<Seq<char>>;

/// The keys whose entries a walk did not meet.
pub open spec fn unmet(
    contents: Map<Seq<char>, EntryView>,
    entries: Seq<(String, CacheEntry)>,
) -> Set<Seq<char>> {
    Set::new(|k: Seq<char>| contents.contains_key(k) && !is_met(entries, k))
}

/// Entries of which there are none.
pub open spec fn no_entries() -> Map<Seq<char>, EntryView> {
    Map::empty()
}

/// The capacity that a cache was made with, and after how many idle seconds it drops an entry.
pub uninterp spec fn cache_limits(cache: MokaCache<String, CacheEntry>) -> (nat, nat);

/// Makes a cache with `moka::sync::Cache::builder`, `weigher`, `max_capacity`, `time_to_idle` and
/// `build`. Trusted: it is empty and has the limits that it was made with. `build` panics where the
/// idle time is over a thousand years.
#[verifier::external_body]
fn build_cache(capacity: u64, idle_seconds: u64) -> (cache: MokaCache<String, CacheEntry>)
    requires
        idle_seconds <= 31_536_000_000,
    ensures
        cache_contents(cache) == no_entries(),
        cache_lost(cache) == Set::<Seq<char>>::empty(),
        cache_limits(cache) == (capacity as nat, idle_seconds as nat),
{
    MokaCache::builder()
        .weigher(|_key: &String, value: &CacheEntry| entry_weight(value))
        .max_capacity(capacity)
        .time_to_idle(Duration::from_secs(idle_seconds))
        .build()
}

/// Looks up with `moka::sync::Cache::get`. Trusted: what is found is a clone of what was last
/// inserted under the key and not invalidated since, and no earlier walk missed it. Whether an entry
/// was dropped meanwhile rests on time and on how full the cache is, and nothing is said of it.
#[verifier::external_body]
fn lookup(cache: &MokaCache<String, CacheEntry>, key: &str) -> (found: Option<CacheEntry>)
    ensures
        found matches Some(entry) ==> cache_contents(*cache).contains_key(key@) && entry@
            == cache_contents(*cache)[key@] && !cache_lost(*cache).contains(key@),
{
    cache.get(key)
}

/// What an entry that was looked for says, if anything was found.
pub open spec fn found_view(found: Option<CacheEntry>) -> Option<EntryView> {
    match found {
        Some(entry) => Some(entry@),
        None => None,
    }
}

/// Whether `found` is what the look-up in a cache under `key` gives. Nothing is given only where the
/// cache itself has nothing to give.
pub closed spec fn gives(
    cache: MokaCache<String, CacheEntry>,
    key: Seq<char>,
    found: Option<EntryView>,
) -> bool {
    exists|k: &str, entry: Option<CacheEntry>|
        k@ == key && #[trigger] call_ensures(lookup, (&cache, k), entry) && found_view(entry)
            == found
}

/// What a look-up gives was put in and not taken out since, and no walk missed it.
proof fn lemma_given(cache: MokaCache<String, CacheEntry>, key: Seq<char>, found: Option<EntryView>)
    requires
        gives(cache, key, found),
    ensures
        found matches Some(entry) ==> cache_contents(cache).contains_key(key)
            && cache_contents(cache)[key] == entry && !cache_lost(cache).contains(key),
{
}

/// Inserts with `moka::sync::Cache::insert`. Trusted: the entry is put in under the key, in place of
/// what was there, and nothing else is put in. Which entries the cache drops to make room, the new
/// one perhaps among them, shows only in what is found later.
#[verifier::external_body]
fn store(cache: &mut MokaCache<String, CacheEntry>, key: String, entry: CacheEntry)
    ensures
        cache_contents(*final(cache)) == cache_contents(*old(cache)).insert(key@, entry@),
        cache_lost(*final(cache)) == cache_lost(*old(cache)).remove(key@),
        cache_limits(*final(cache)) == cache_limits(*old(cache)),
{
    cache.insert(key, entry);
}

/// Discards with `moka::sync::Cache::invalidate`. Trusted: what is under the key is taken out, and
/// nothing else.
#[verifier::external_body]
fn discard(cache: &mut MokaCache<String, CacheEntry>, key: &str)
    ensures
        cache_contents(*final(cache)) == cache_contents(*old(cache)).remove(key@),
        cache_lost(*final(cache)) == cache_lost(*old(cache)).remove(key@),
        cache_limits(*final(cache)) == cache_limits(*old(cache)),
{
    cache.invalidate(key);
}

/// Walks a cache with `moka::sync::Cache::iter`. Trusted: while nobody else uses the cache, the
/// walk meets each entry that can still be found, once, and puts nothing in and takes nothing out.
/// What it does not meet was dropped, now or before an earlier walk, and can never be found again.
#[verifier::external_body]
fn walk(cache: &mut MokaCache<String, CacheEntry>) -> (entries: Vec<(String, CacheEntry)>)
    ensures
        cache_contents(*final(cache)) == cache_contents(*old(cache)),
        within(table::map_of(entries@), cache_contents(*final(cache))),
        table::keys_of(entries@).no_duplicates(),
        cache_lost(*final(cache)) == unmet(cache_contents(*final(cache)), entries@),
        cache_lost(*old(cache)).subset_of(cache_lost(*final(cache))),
        cache_limits(*final(cache)) == cache_limits(*old(cache)),
{
    cache.iter().map(|(key, entry)| ((*key).clone(), entry)).collect()
}

/// Counts with `moka::sync::Cache::entry_count`, which is an estimate: what was put in or taken out
/// lately may not be counted yet, and what was dropped may still be. Nothing is claimed of it.
#[verifier::external_body]
fn count(cache: &MokaCache<String, CacheEntry>) -> (n: u64) {
    cache.entry_count()
}

/// A cache of texts.
pub struct TextCache {
    inner: MokaCache<String, CacheEntry>,
}

/// The texts among entries.
pub open spec fn texts_in(contents: Map<Seq<char>, EntryView>) -> Map<Seq<char>, Seq<char>> {
    Map::new(
        |k: Seq<char>| contents.contains_key(k) && contents[k] is Text,
        |k: Seq<char>| contents[k]->Text_0,
    )
}

impl View for TextCache {
    type V = Map<Seq<char>, Seq<char>>;

    closed spec fn view(&self) -> Map<Seq<char>, Seq<char>> {
        texts_in(cache_contents(self.inner))
    }
}

/// Whether a text may be found under a key.
pub open spec fn may_find(
    texts: Map<Seq<char>, Seq<char>>,
    key: Seq<char>,
    found: Option<String>,
) -> bool {
    found matches Some(s) ==> texts.contains_key(key) && s@ == texts[key]
}

/// Texts without those that are `value`, but for those that are known to be dropped.
pub open spec fn without_text(
    texts: Map<Seq<char>, Seq<char>>,
    value: Seq<char>,
    lost: Set<Seq<char>>,
) -> Map<Seq<char>, Seq<char>> {
    Map::new(
        |k: Seq<char>| texts.contains_key(k) && (texts[k] == value ==> lost.contains(k)),
        |k: Seq<char>| texts[k],
    )
}

/// Entries without those that have one of the keys.
pub open spec fn without_keys(
    contents: Map<Seq<char>, EntryView>,
    keys: Seq<Seq<char>>,
) -> Map<Seq<char>, EntryView> {
    Map::new(
        |k: Seq<char>| contents.contains_key(k) && !keys.contains(k),
        |k: Seq<char>| contents[k],
    )
}

impl TextCache {
    /// The limits that the cache was made with.
    pub closed spec fn limits(&self) -> (nat, nat) {
        cache_limits(self.inner)
    }

    /// The keys whose texts are known to be dropped, so that they are never found.
    pub closed spec fn lost(&self) -> Set<Seq<char>> {
        cache_lost(self.inner)
    }

    /// Whether `found` is what the look-up under `key` gives.
    pub closed spec fn answers(&self, key: Seq<char>, found: Option<Seq<char>>) -> bool {
        exists|entry: Option<EntryView>| #[trigger]
            gives(self.inner, key, entry) && found == (match entry {
                Some(EntryView::Text(s)) => Some(s),
                _ => None,
            })
    }

    /// What is found under a key is what was put there last.
    pub proof fn lemma_answer(&self, key: Seq<char>, found: Option<Seq<char>>)
        requires
            self.answers(key, found),
        ensures
            found matches Some(value) ==> self@.contains_key(key) && self@[key] == value,
    {
        let entry = choose|entry: Option<EntryView>| #[trigger]
            gives(self.inner, key, entry) && found == (match entry {
                Some(EntryView::Text(s)) => Some(s),
                _ => None,
            });
        lemma_given(self.inner, key, entry);
    }

    /// An empty cache.
    pub fn new(capacity: u64, idle_seconds: u64) -> (cache: Self)
        requires
            idle_seconds <= 31_536_000_000,
        ensures
            cache@ == Map::<Seq<char>, Seq<char>>::empty(),
            cache.lost() == Set::<Seq<char>>::empty(),
            cache.limits() == (capacity as nat, idle_seconds as nat),
    {
        let cache = TextCache { inner: build_cache(capacity, idle_seconds) };
        assert(cache@ =~= Map::<Seq<char>, Seq<char>>::empty());
        cache
    }

    /// The text under `key`, where it is still there.
    pub fn get(&self, key: &str) -> (found: Option<String>)
        ensures
            self.answers(key@, web::opt_text(found)),
            may_find(self@, key@, found),
            found is Some ==> !self.lost().contains(key@),
    {
        let entry = lookup(&self.inner, key);
        assert(gives(self.inner, key@, found_view(entry)));
        CacheEntry::text_found(entry)
    }

    /// Puts a text under `key`.
    pub fn insert(&mut self, key: String, value: String)
        ensures
            final(self)@ == old(self)@.insert(key@, value@),
            final(self).lost() == old(self).lost().remove(key@),
            final(self).limits() == old(self).limits(),
    {
        store(&mut self.inner, key, CacheEntry::Text(value));
    }

    /// Drops what is under `key`.
    pub fn invalidate(&mut self, key: &str)
        ensures
            final(self)@ == old(self)@.remove(key@),
            final(self).lost() == old(self).lost().remove(key@),
            final(self).limits() == old(self).limits(),
    {
        discard(&mut self.inner, key);
    }

    /// Drops every key whose text is `value`, and no other. Of those that are left with that text,
    /// none is ever found.
    pub fn invalidate_value(&mut self, value: &str)
        ensures
            final(self)@ == without_text(old(self)@, value@, final(self).lost()),
            old(self).lost().subset_of(final(self).lost()),
            final(self).limits() == old(self).limits(),
    {
        let ghost contents = cache_contents(self.inner);
        let ghost limits = cache_limits(self.inner);
        let entries = walk(&mut self.inner);
        let keys = keys_with_text(&entries, value);
        let ghost views = text::texts(keys@);
        let ghost lost = unmet(contents, entries@);
        let length: usize = keys.len();
        let mut i: usize = 0;
        proof {
            assert forall|j: int| 0 <= j < views.len() implies !lost.contains(
                #[trigger] views[j],
            ) by {
                assert(views.contains(views[j]));
                lemma_keys_holding(entries@, value@, views[j]);
            }
            assert(cache_lost(self.inner) =~= lost);
        }
        while i < length
            invariant
                length == keys@.len(),
                views == text::texts(keys@),
                i <= length,
                limits == cache_limits(self.inner),
                lost == cache_lost(self.inner),
                forall|j: int| 0 <= j < views.len() ==> !lost.contains(#[trigger] views[j]),
                cache_contents(self.inner) == without_keys(contents, views.take(i as int)),
            decreases length - i,
        {
            let ghost before = cache_contents(self.inner);
            discard(&mut self.inner, keys[i].as_str());
            proof {
                assert(views[i as int] == keys@[i as int]@);
                assert(cache_lost(self.inner) =~= lost);
                assert(views.take(i + 1) =~= views.take(i as int).push(views[i as int]));
                assert forall|k: Seq<char>|
                    views.take(i + 1).contains(k) == (views.take(i as int).contains(k) || k
                        == views[i as int]) by {
                    let shorter = views.take(i as int);
                    let longer = views.take(i + 1);
                    if shorter.contains(k) {
                        assert(longer[shorter.index_of(k)] == k);
                    }
                    if k == views[i as int] {
                        assert(longer[i as int] == k);
                    }
                    if longer.contains(k) {
                        let j = longer.index_of(k);
                        if j < i {
                            assert(shorter[j] == k);
                        }
                    }
                }
                assert(cache_contents(self.inner) =~= without_keys(contents, views.take(i + 1)));
            }
            i += 1;
        }
        proof {
            assert(views.take(length as int) =~= views);
            assert forall|k: Seq<char>| contents.contains_key(k) implies (#[trigger] views.contains(
                k,
            ) <==> contents[k] == EntryView::Text(value@) && !lost.contains(k)) by {
                lemma_keys_holding(entries@, value@, k);
                if views.contains(k) {
                    let j = choose|j: int|
                        0 <= j < entries@.len() && (#[trigger] entries@[j]).0@ == k
                            && entries@[j].1@ == EntryView::Text(value@);
                    lemma_met_entry(entries@, j);
                }
                if is_met(entries@, k) {
                    let j = choose|j: int| 0 <= j < entries@.len() && (#[trigger] entries@[j]).0@
                        == k;
                    lemma_met_entry(entries@, j);
                    assert(contents[k] == entries@[j].1@);
                }
            }
            assert(self@ =~= without_text(old(self)@, value@, self.lost()));
        }
    }

    /// Whether the cache's own estimate of how many texts there are is `n`.
    pub closed spec fn counted(&self, n: u64) -> bool {
        call_ensures(count, (&self.inner,), n)
    }

    /// About how many texts there are: the cache's own estimate, of which nothing more is promised.
    pub fn entry_count(&self) -> (n: u64)
        ensures
            self.counted(n),
    {
        count(&self.inner)
    }
}

/// A cache of maps from text to text.
pub struct TextsCache {
    inner: MokaCache<String, CacheEntry>,
}

/// The maps of texts among entries.
pub open spec fn text_maps_in(contents: Map<Seq<char>, EntryView>) -> Map<
    Seq<char>,
    Map<Seq<char>, Seq<char>>,
> {
    Map::new(
        |k: Seq<char>| contents.contains_key(k) && contents[k] is Texts,
        |k: Seq<char>| contents[k]->Texts_0,
    )
}

impl View for TextsCache {
    type V = Map<Seq<char>, Map<Seq<char>, Seq<char>>>;

    closed spec fn view(&self) -> Map<Seq<char>, Map<Seq<char>, Seq<char>>> {
        text_maps_in(cache_contents(self.inner))
    }
}

impl TextsCache {
    /// The limits that the cache was made with.
    pub closed spec fn limits(&self) -> (nat, nat) {
        cache_limits(self.inner)
    }

    /// Whether `found` is what the look-up under `key` gives.
    pub closed spec fn answers(
        &self,
        key: Seq<char>,
        found: Option<Map<Seq<char>, Seq<char>>>,
    ) -> bool {
        exists|entry: Option<EntryView>| #[trigger]
            gives(self.inner, key, entry) && found == (match entry {
                Some(EntryView::Texts(map)) => Some(map),
                _ => None,
            })
    }

    /// What is found under a key is what was put there last.
    pub proof fn lemma_answer(&self, key: Seq<char>, found: Option<Map<Seq<char>, Seq<char>>>)
        requires
            self.answers(key, found),
        ensures
            found matches Some(value) ==> self@.contains_key(key) && self@[key] == value,
    {
        let entry = choose|entry: Option<EntryView>| #[trigger]
            gives(self.inner, key, entry) && found == (match entry {
                Some(EntryView::Texts(map)) => Some(map),
                _ => None,
            });
        lemma_given(self.inner, key, entry);
    }

    /// An empty cache.
    pub fn new(capacity: u64, idle_seconds: u64) -> (cache: Self)
        requires
            idle_seconds <= 31_536_000_000,
        ensures
            cache@ == Map::<Seq<char>, Map<Seq<char>, Seq<char>>>::empty(),
            cache.limits() == (capacity as nat, idle_seconds as nat),
    {
        let cache = TextsCache { inner: build_cache(capacity, idle_seconds) };
        assert(cache@ =~= Map::<Seq<char>, Map<Seq<char>, Seq<char>>>::empty());
        cache
    }

    /// The map under `key`, where it is still there.
    pub fn get(&self, key: &str) -> (found: Option<TextMap<String>>)
        ensures
            self.answers(key@, opt_view(found)),
            found matches Some(map) ==> self@.contains_key(key@) && map@ == self@[key@],
    {
        let entry = lookup(&self.inner, key);
        assert(gives(self.inner, key@, found_view(entry)));
        CacheEntry::texts_found(entry)
    }

    /// Puts a map under `key`.
    pub fn insert(&mut self, key: String, value: TextMap<String>)
        ensures
            final(self)@ == old(self)@.insert(key@, value@),
            final(self).limits() == old(self).limits(),
    {
        store(&mut self.inner, key, CacheEntry::Texts(value));
    }

    /// Drops what is under `key`.
    pub fn invalidate(&mut self, key: &str)
        ensures
            final(self)@ == old(self)@.remove(key@),
            final(self).limits() == old(self).limits(),
    {
        discard(&mut self.inner, key);
    }

    /// Whether the cache's own estimate of how many maps there are is `n`.
    pub closed spec fn counted(&self, n: u64) -> bool {
        call_ensures(count, (&self.inner,), n)
    }

    /// About how many maps there are: the cache's own estimate, of which nothing more is promised.
    pub fn entry_count(&self) -> (n: u64)
        ensures
            self.counted(n),
    {
        count(&self.inner)
    }
}

/// A cache of the members of rooms.
pub struct MembersCache {
    inner: MokaCache<String, CacheEntry>,
}

/// The maps of members among entries.
pub open spec fn member_maps_in(contents: Map<Seq<char>, EntryView>) -> Map<
    Seq<char>,
    Map<Seq<char>, MatrixUserView>,
> {
    Map::new(
        |k: Seq<char>| contents.contains_key(k) && contents[k] is Members,
        |k: Seq<char>| contents[k]->Members_0,
    )
}

impl View for MembersCache {
    type V = Map<Seq<char>, Map<Seq<char>, MatrixUserView>>;

    closed spec fn view(&self) -> Map<Seq<char>, Map<Seq<char>, MatrixUserView>> {
        member_maps_in(cache_contents(self.inner))
    }
}

impl MembersCache {
    /// The limits that the cache was made with.
    pub closed spec fn limits(&self) -> (nat, nat) {
        cache_limits(self.inner)
    }

    /// Whether `found` is what the look-up under `key` gives.
    pub closed spec fn answers(
        &self,
        key: Seq<char>,
        found: Option<Map<Seq<char>, MatrixUserView>>,
    ) -> bool {
        exists|entry: Option<EntryView>| #[trigger]
            gives(self.inner, key, entry) && found == (match entry {
                Some(EntryView::Members(map)) => Some(map),
                _ => None,
            })
    }

    /// What is found under a key is what was put there last.
    pub proof fn lemma_answer(&self, key: Seq<char>, found: Option<Map<Seq<char>, MatrixUserView>>)
        requires
            self.answers(key, found),
        ensures
            found matches Some(value) ==> self@.contains_key(key) && self@[key] == value,
    {
        let entry = choose|entry: Option<EntryView>| #[trigger]
            gives(self.inner, key, entry) && found == (match entry {
                Some(EntryView::Members(map)) => Some(map),
                _ => None,
            });
        lemma_given(self.inner, key, entry);
    }

    /// An empty cache.
    pub fn new(capacity: u64, idle_seconds: u64) -> (cache: Self)
        requires
            idle_seconds <= 31_536_000_000,
        ensures
            cache@ == Map::<Seq<char>, Map<Seq<char>, MatrixUserView>>::empty(),
            cache.limits() == (capacity as nat, idle_seconds as nat),
    {
        let cache = MembersCache { inner: build_cache(capacity, idle_seconds) };
        assert(cache@ =~= Map::<Seq<char>, Map<Seq<char>, MatrixUserView>>::empty());
        cache
    }

    /// The members under `key`, where they are still there.
    pub fn get(&self, key: &str) -> (found: Option<TextMap<MatrixUser>>)
        ensures
            self.answers(key@, opt_view(found)),
            found matches Some(map) ==> self@.contains_key(key@) && map@ == self@[key@],
    {
        let entry = lookup(&self.inner, key);
        assert(gives(self.inner, key@, found_view(entry)));
        CacheEntry::members_found(entry)
    }

    /// Puts members under `key`.
    pub fn insert(&mut self, key: String, value: TextMap<MatrixUser>)
        ensures
            final(self)@ == old(self)@.insert(key@, value@),
            final(self).limits() == old(self).limits(),
    {
        store(&mut self.inner, key, CacheEntry::Members(value));
    }

    /// Drops what is under `key`.
    pub fn invalidate(&mut self, key: &str)
        ensures
            final(self)@ == old(self)@.remove(key@),
            final(self).limits() == old(self).limits(),
    {
        discard(&mut self.inner, key);
    }
}

/// A cache of webhooks.
pub struct WebhookCache {
    inner: MokaCache<String, CacheEntry>,
}

/// The webhooks among entries.
pub open spec fn webhooks_in(contents: Map<Seq<char>, EntryView>) -> Map<Seq<char>, WebhookView> {
    Map::new(
        |k: Seq<char>| contents.contains_key(k) && contents[k] is Webhook,
        |k: Seq<char>| contents[k]->Webhook_0,
    )
}

impl View for WebhookCache {
    type V = Map<Seq<char>, WebhookView>;

    closed spec fn view(&self) -> Map<Seq<char>, WebhookView> {
        webhooks_in(cache_contents(self.inner))
    }
}

/// Whether one of the webhooks that are not known to be dropped has the number `id`.
pub open spec fn has_webhook(
    webhooks: Map<Seq<char>, WebhookView>,
    lost: Set<Seq<char>>,
    id: Seq<char>,
) -> bool {
    exists|k: Seq<char>| #[trigger]
        webhooks.contains_key(k) && !lost.contains(k) && webhooks[k].id == id
}

impl WebhookCache {
    /// The limits that the cache was made with.
    pub closed spec fn limits(&self) -> (nat, nat) {
        cache_limits(self.inner)
    }

    /// The keys whose webhooks are known to be dropped, so that they are never found.
    pub closed spec fn lost(&self) -> Set<Seq<char>> {
        cache_lost(self.inner)
    }

    /// Whether `found` is what the look-up under `key` gives.
    pub closed spec fn answers(&self, key: Seq<char>, found: Option<WebhookView>) -> bool {
        exists|entry: Option<EntryView>| #[trigger]
            gives(self.inner, key, entry) && found == (match entry {
                Some(EntryView::Webhook(webhook)) => Some(webhook),
                _ => None,
            })
    }

    /// What is found under a key is what was put there last.
    pub proof fn lemma_answer(&self, key: Seq<char>, found: Option<WebhookView>)
        requires
            self.answers(key, found),
        ensures
            found matches Some(value) ==> self@.contains_key(key) && self@[key] == value,
    {
        let entry = choose|entry: Option<EntryView>| #[trigger]
            gives(self.inner, key, entry) && found == (match entry {
                Some(EntryView::Webhook(webhook)) => Some(webhook),
                _ => None,
            });
        lemma_given(self.inner, key, entry);
    }

    /// An empty cache.
    pub fn new(capacity: u64, idle_seconds: u64) -> (cache: Self)
        requires
            idle_seconds <= 31_536_000_000,
        ensures
            cache@ == Map::<Seq<char>, WebhookView>::empty(),
            cache.lost() == Set::<Seq<char>>::empty(),
            cache.limits() == (capacity as nat, idle_seconds as nat),
    {
        let cache = WebhookCache { inner: build_cache(capacity, idle_seconds) };
        assert(cache@ =~= Map::<Seq<char>, WebhookView>::empty());
        cache
    }

    /// The webhook under `key`, where it is still there.
    pub fn get(&self, key: &str) -> (found: Option<WebhookInfo>)
        ensures
            self.answers(key@, opt_view(found)),
            found matches Some(webhook) ==> self@.contains_key(key@) && webhook@ == self@[key@]
                && !self.lost().contains(key@),
    {
        let entry = lookup(&self.inner, key);
        assert(gives(self.inner, key@, found_view(entry)));
        CacheEntry::webhook_found(entry)
    }

    /// Puts a webhook under `key`.
    pub fn insert(&mut self, key: String, value: WebhookInfo)
        ensures
            final(self)@ == old(self)@.insert(key@, value@),
            final(self).lost() == old(self).lost().remove(key@),
            final(self).limits() == old(self).limits(),
    {
        store(&mut self.inner, key, CacheEntry::Webhook(value));
    }

    /// Whether one of the webhooks that are still there has the number `id`. All of them stay.
    pub fn has_id(&mut self, id: &str) -> (res: bool)
        ensures
            res == has_webhook(old(self)@, final(self).lost(), id@),
            final(self)@ == old(self)@,
            old(self).lost().subset_of(final(self).lost()),
            final(self).limits() == old(self).limits(),
    {
        let entries = walk(&mut self.inner);
        let res = lists_webhook(&entries, id);
        proof {
            let contents = cache_contents(self.inner);
            if res {
                let i = choose|i: int|
                    0 <= i < entries@.len() && (#[trigger] entries@[i]).1@ is Webhook
                        && entries@[i].1@->Webhook_0.id == id@;
                lemma_met_entry(entries@, i);
                assert(contents[entries@[i].0@] == entries@[i].1@);
                assert(self@.contains_key(entries@[i].0@));
            }
            if has_webhook(self@, self.lost(), id@) {
                let k = choose|k: Seq<char>| #[trigger]
                    self@.contains_key(k) && !self.lost().contains(k) && self@[k].id == id@;
                assert(is_met(entries@, k));
                let i = choose|i: int| 0 <= i < entries@.len() && (#[trigger] entries@[i]).0@ == k;
                lemma_met_entry(entries@, i);
                assert(contents[k] == entries@[i].1@);
            }
        }
        res
    }
}

/// A cache of files.
pub struct BytesCache {
    inner: MokaCache<String, CacheEntry>,
}

/// The files among entries.
pub open spec fn bytes_in(contents: Map<Seq<char>, EntryView>) -> Map<Seq<char>, Seq<u8>> {
    Map::new(
        |k: Seq<char>| contents.contains_key(k) && contents[k] is Bytes,
        |k: Seq<char>| contents[k]->Bytes_0,
    )
}

impl View for BytesCache {
    type V = Map<Seq<char>, Seq<u8>>;

    closed spec fn view(&self) -> Map<Seq<char>, Seq<u8>> {
        bytes_in(cache_contents(self.inner))
    }
}

impl BytesCache {
    /// The limits that the cache was made with.
    pub closed spec fn limits(&self) -> (nat, nat) {
        cache_limits(self.inner)
    }

    /// Whether `found` is what the look-up under `key` gives.
    pub closed spec fn answers(&self, key: Seq<char>, found: Option<Seq<u8>>) -> bool {
        exists|entry: Option<EntryView>| #[trigger]
            gives(self.inner, key, entry) && found == (match entry {
                Some(EntryView::Bytes(bytes)) => Some(bytes),
                _ => None,
            })
    }

    /// What is found under a key is what was put there last.
    pub proof fn lemma_answer(&self, key: Seq<char>, found: Option<Seq<u8>>)
        requires
            self.answers(key, found),
        ensures
            found matches Some(value) ==> self@.contains_key(key) && self@[key] == value,
    {
        let entry = choose|entry: Option<EntryView>| #[trigger]
            gives(self.inner, key, entry) && found == (match entry {
                Some(EntryView::Bytes(bytes)) => Some(bytes),
                _ => None,
            });
        lemma_given(self.inner, key, entry);
    }

    /// An empty cache.
    pub fn new(capacity: u64, idle_seconds: u64) -> (cache: Self)
        requires
            idle_seconds <= 31_536_000_000,
        ensures
            cache@ == Map::<Seq<char>, Seq<u8>>::empty(),
            cache.limits() == (capacity as nat, idle_seconds as nat),
    {
        let cache = BytesCache { inner: build_cache(capacity, idle_seconds) };
        assert(cache@ =~= Map::<Seq<char>, Seq<u8>>::empty());
        cache
    }

    /// The file under `key`, where it is still there.
    pub fn get(&self, key: &str) -> (found: Option<Vec<u8>>)
        ensures
            self.answers(key@, opt_view(found)),
            found matches Some(bytes) ==> self@.contains_key(key@) && bytes@ == self@[key@],
    {
        let entry = lookup(&self.inner, key);
        assert(gives(self.inner, key@, found_view(entry)));
        CacheEntry::bytes_found(entry)
    }

    /// Puts a file under `key`.
    pub fn insert(&mut self, key: String, value: Vec<u8>)
        ensures
            final(self)@ == old(self)@.insert(key@, value@),
            final(self).limits() == old(self).limits(),
    {
        store(&mut self.inner, key, CacheEntry::Bytes(value));
    }
}

/// One text for a pair of texts: the length of the first, a colon, and both.
pub open spec fn pair_key(first: Seq<char>, second: Seq<char>) -> Seq<char> {
    number::decimal(first.len()) + seq![':'] + first + second
}

/// Different pairs have different keys.
pub proof fn law_pair_key_is_injective(
    first: Seq<char>,
    second: Seq<char>,
    other_first: Seq<char>,
    other_second: Seq<char>,
)
    requires
        pair_key(first, second) == pair_key(other_first, other_second),
    ensures
        first == other_first,
        second == other_second,
{
    let a = number::decimal(first.len());
    let b = number::decimal(other_first.len());
    let key = pair_key(first, second);
    let other = pair_key(other_first, other_second);
    number::lemma_decimal_value(first.len());
    number::lemma_decimal_value(other_first.len());
    assert(key[a.len() as int] == ':');
    assert(other[b.len() as int] == ':');
    if a.len() < b.len() {
        assert(other[a.len() as int] == b[a.len() as int]);
        assert(false);
    }
    if b.len() < a.len() {
        assert(key[b.len() as int] == a[b.len() as int]);
        assert(false);
    }
    assert(a =~= key.take(a.len() as int));
    assert(b =~= other.take(b.len() as int));
    assert(first.len() == other_first.len());
    let start = a.len() as int + 1;
    assert(first =~= key.subrange(start, start + first.len()));
    assert(other_first =~= other.subrange(start, start + first.len()));
    assert(second =~= key.skip(start + first.len()));
    assert(other_second =~= other.skip(start + first.len()));
}

/// The key for a pair of texts.
fn make_pair_key(first: &str, second: &str) -> (key: String)
    ensures
        key@ == pair_key(first@, second@),
{
    proof {
        reveal_strlit(":");
        assert(":"@ =~= seq![':']);
    }
    let length: usize = text::chars_of(first).len();
    number::to_decimal(length as u64).concat(":").concat(first).concat(second)
}

/// A cache of what users want, by user and room.
pub struct PreferenceCache {
    inner: MokaCache<String, CacheEntry>,
}

/// The preference under a user and a room among entries.
pub open spec fn preferences_in(contents: Map<Seq<char>, EntryView>) -> Map<
    (Seq<char>, Seq<char>),
    Option<UserPreferenceView>,
> {
    Map::new(
        |k: (Seq<char>, Seq<char>)|
            contents.contains_key(pair_key(k.0, k.1)) && contents[pair_key(k.0, k.1)] is Preference,
        |k: (Seq<char>, Seq<char>)| contents[pair_key(k.0, k.1)]->Preference_0,
    )
}

impl View for PreferenceCache {
    type V = Map<(Seq<char>, Seq<char>), Option<UserPreferenceView>>;

    closed spec fn view(&self) -> Map<(Seq<char>, Seq<char>), Option<UserPreferenceView>> {
        preferences_in(cache_contents(self.inner))
    }
}

/// What a preference that was looked for says, if anything was found.
pub open spec fn preference_found_view(found: Option<Option<UserPreference>>) -> Option<
    Option<UserPreferenceView>,
> {
    match found {
        Some(preference) => Some(preference_view(preference)),
        None => None,
    }
}

/// Whether a preference may be found for a user and a room.
pub open spec fn may_recall(
    preferences: Map<(Seq<char>, Seq<char>), Option<UserPreferenceView>>,
    sender: Seq<char>,
    room: Seq<char>,
    found: Option<Option<UserPreference>>,
) -> bool {
    found matches Some(preference) ==> preferences.contains_key((sender, room)) && preference_view(
        preference,
    ) == preferences[(sender, room)]
}

impl PreferenceCache {
    /// The limits that the cache was made with.
    pub closed spec fn limits(&self) -> (nat, nat) {
        cache_limits(self.inner)
    }

    /// Whether `found` is what the look-up for a user and a room gives.
    pub closed spec fn answers(
        &self,
        sender: Seq<char>,
        room: Seq<char>,
        found: Option<Option<UserPreferenceView>>,
    ) -> bool {
        exists|entry: Option<EntryView>| #[trigger]
            gives(self.inner, pair_key(sender, room), entry) && found == (match entry {
                Some(EntryView::Preference(preference)) => Some(preference),
                _ => None,
            })
    }

    /// An empty cache.
    pub fn new(capacity: u64, idle_seconds: u64) -> (cache: Self)
        requires
            idle_seconds <= 31_536_000_000,
        ensures
            cache@ == Map::<(Seq<char>, Seq<char>), Option<UserPreferenceView>>::empty(),
            cache.limits() == (capacity as nat, idle_seconds as nat),
    {
        let cache = PreferenceCache { inner: build_cache(capacity, idle_seconds) };
        assert(cache@ =~= Map::<(Seq<char>, Seq<char>), Option<UserPreferenceView>>::empty());
        cache
    }

    /// What is known of the wishes of `sender` for `room_id`, where it is still there.
    pub fn get(&self, sender: &str, room_id: &str) -> (found: Option<Option<UserPreference>>)
        ensures
            self.answers(sender@, room_id@, preference_found_view(found)),
            may_recall(self@, sender@, room_id@, found),
    {
        let key = make_pair_key(sender, room_id);
        let entry = lookup(&self.inner, key.as_str());
        assert(gives(self.inner, key@, found_view(entry)));
        CacheEntry::preference_found(entry)
    }

    /// Keeps the wishes of `sender` for `room_id`.
    pub fn insert(&mut self, sender: &str, room_id: &str, value: Option<UserPreference>)
        ensures
            final(self)@ == old(self)@.insert((sender@, room_id@), preference_view(value)),
            final(self).limits() == old(self).limits(),
    {
        let ghost before = self@;
        let key = make_pair_key(sender, room_id);
        store(&mut self.inner, key, CacheEntry::Preference(value));
        proof {
            let after = before.insert((sender@, room_id@), preference_view(value));
            assert forall|k: (Seq<char>, Seq<char>)| pair_key(k.0, k.1) == pair_key(
                sender@,
                room_id@,
            ) implies k == (sender@, room_id@) by {
                law_pair_key_is_injective(k.0, k.1, sender@, room_id@);
            }
            assert(self@ =~= after);
        }
    }

    /// Forgets the wishes of `sender` for `room_id`.
    pub fn invalidate(&mut self, sender: &str, room_id: &str)
        ensures
            final(self)@ == old(self)@.remove((sender@, room_id@)),
            final(self).limits() == old(self).limits(),
    {
        let ghost before = self@;
        discard(&mut self.inner, make_pair_key(sender, room_id).as_str());
        proof {
            assert forall|k: (Seq<char>, Seq<char>)| pair_key(k.0, k.1) == pair_key(
                sender@,
                room_id@,
            ) implies k == (sender@, room_id@) by {
                law_pair_key_is_injective(k.0, k.1, sender@, room_id@);
            }
            assert(self@ =~= before.remove((sender@, room_id@)));
        }
    }
}

/// Seconds in an hour, a day and a week.
const HOUR: u64 = 3_600;

const DAY: u64 = 86_400;

const WEEK: u64 = 604_800;

/// Everything that the bridge remembers.
pub struct Cache {
    /// Matrix room alias to room.
    pub m_rooms: TextCache,
    /// Matrix room to its members.
    pub m_members: MembersCache,
    /// Matrix event to Discord message.
    pub m_messages: TextCache,
    /// Discord message to Matrix event.
    pub d_messages: TextCache,
    /// Emote name to Discord emote.
    pub d_emotes: TextCache,
    /// Emote name to Matrix content URL.
    pub m_emotes: TextCache,
    /// Discord channel to webhook.
    pub d_webhooks: WebhookCache,
    /// Matrix room to its emoji, by shortcode.
    pub m_custom_emojis: TextsCache,
    /// Discord guild to its role names, by role.
    pub d_roles: TextsCache,
    /// Discord guild to its channel names, by channel.
    pub d_channels: TextsCache,
    /// Matrix content URL to avatar file.
    pub m_avatars: BytesCache,
    /// Matrix user and room to what the user wants.
    pub user_prefs: PreferenceCache,
}

impl Cache {
    /// Whether two caches hold the same but for the mapping of messages.
    pub open spec fn same_but_messages(self, other: Self) -> bool {
        &&& self.m_rooms == other.m_rooms
        &&& self.m_members == other.m_members
        &&& self.d_emotes == other.d_emotes
        &&& self.m_emotes == other.m_emotes
        &&& self.d_webhooks == other.d_webhooks
        &&& self.m_custom_emojis == other.m_custom_emojis
        &&& self.d_roles == other.d_roles
        &&& self.d_channels == other.d_channels
        &&& self.m_avatars == other.m_avatars
        &&& self.user_prefs == other.user_prefs
    }

    /// Whether nothing is remembered.
    pub open spec fn is_blank(self) -> bool {
        &&& self.m_rooms@ == Map::<Seq<char>, Seq<char>>::empty()
        &&& self.m_members@ == Map::<Seq<char>, Map<Seq<char>, MatrixUserView>>::empty()
        &&& self.m_messages@ == Map::<Seq<char>, Seq<char>>::empty()
        &&& self.d_messages@ == Map::<Seq<char>, Seq<char>>::empty()
        &&& self.d_emotes@ == Map::<Seq<char>, Seq<char>>::empty()
        &&& self.m_emotes@ == Map::<Seq<char>, Seq<char>>::empty()
        &&& self.d_webhooks@ == Map::<Seq<char>, WebhookView>::empty()
        &&& self.m_custom_emojis@ == Map::<Seq<char>, Map<Seq<char>, Seq<char>>>::empty()
        &&& self.d_roles@ == Map::<Seq<char>, Map<Seq<char>, Seq<char>>>::empty()
        &&& self.d_channels@ == Map::<Seq<char>, Map<Seq<char>, Seq<char>>>::empty()
        &&& self.m_avatars@ == Map::<Seq<char>, Seq<u8>>::empty()
        &&& self.user_prefs@ == Map::<
            (Seq<char>, Seq<char>),
            Option<UserPreferenceView>,
        >::empty()
    }

    /// Whether each cache has the limits that the bridge gives it.
    pub open spec fn has_default_limits(self) -> bool {
        &&& self.m_rooms.limits() == (10_000nat, 604_800nat)
        &&& self.m_members.limits() == (1_000nat, 3_600nat)
        &&& self.m_messages.limits() == (50_000nat, 604_800nat)
        &&& self.d_messages.limits() == (50_000nat, 604_800nat)
        &&& self.d_emotes.limits() == (10_000nat, 604_800nat)
        &&& self.m_emotes.limits() == (10_000nat, 604_800nat)
        &&& self.d_webhooks.limits() == (1_000nat, 86_400nat)
        &&& self.m_custom_emojis.limits() == (1_000nat, 86_400nat)
        &&& self.d_roles.limits() == (1_000nat, 86_400nat)
        &&& self.d_channels.limits() == (1_000nat, 86_400nat)
        &&& self.m_avatars.limits() == (52_428_800nat, 86_400nat)
        &&& self.user_prefs.limits() == (10_000nat, 3_600nat)
    }

    /// A cache that remembers nothing yet.
    pub fn new() -> (cache: Self)
        ensures
            cache.is_blank(),
            cache.has_default_limits(),
    {
        Cache {
            m_rooms: TextCache::new(10_000, WEEK),
            m_members: MembersCache::new(1_000, HOUR),
            m_messages: TextCache::new(50_000, WEEK),
            d_messages: TextCache::new(50_000, WEEK),
            d_emotes: TextCache::new(10_000, WEEK),
            m_emotes: TextCache::new(10_000, WEEK),
            d_webhooks: WebhookCache::new(1_000, DAY),
            m_custom_emojis: TextsCache::new(1_000, DAY),
            d_roles: TextsCache::new(1_000, DAY),
            d_channels: TextsCache::new(1_000, DAY),
            m_avatars: BytesCache::new(52_428_800, DAY),
            user_prefs: PreferenceCache::new(10_000, HOUR),
        }
    }

    /// Remembers that a Matrix event and a Discord message are the same message.
    pub fn insert_message_mapping(&mut self, matrix_event_id: String, discord_message_id: String)
        ensures
            final(self).m_messages@ == old(self).m_messages@.insert(
                matrix_event_id@,
                discord_message_id@,
            ),
            final(self).d_messages@ == old(self).d_messages@.insert(
                discord_message_id@,
                matrix_event_id@,
            ),
            final(self).same_but_messages(*old(self)),
    {
        self.m_messages.insert(matrix_event_id.clone(), discord_message_id.clone());
        self.d_messages.insert(discord_message_id, matrix_event_id);
    }

    /// Forgets what a Matrix event and a Discord message stand for.
    pub fn remove_message_mapping(
        &mut self,
        matrix_event_id: Option<&str>,
        discord_message_id: Option<&str>,
    )
        ensures
            match matrix_event_id {
                Some(id) => final(self).m_messages@ == old(self).m_messages@.remove(id@),
                None => final(self).m_messages == old(self).m_messages,
            },
            match discord_message_id {
                Some(id) => final(self).d_messages@ == old(self).d_messages@.remove(id@),
                None => final(self).d_messages == old(self).d_messages,
            },
            final(self).same_but_messages(*old(self)),
    {
        if let Some(id) = matrix_event_id {
            self.m_messages.invalidate(id);
        }
        if let Some(id) = discord_message_id {
            self.d_messages.invalidate(id);
        }
    }

    /// Whether this is what is left of `before` once a message was deleted on the other side, or could
    /// not be: the mapping of its event goes in both directions where it was, and stays where not.
    pub open spec fn has_settled(
        self,
        before: Self,
        event: Seq<char>,
        message: Seq<char>,
        deleted: bool,
    ) -> bool {
        if deleted {
            &&& self.m_messages@ == before.m_messages@.remove(event)
            &&& self.d_messages@ == before.d_messages@.remove(message)
            &&& self.same_but_messages(before)
        } else {
            self == before
        }
    }

    /// Forgets the mapping of a Matrix event and a Discord message where the message was deleted.
    pub fn settle_deletion(&mut self, event_id: &str, message_id: &str, deleted: bool)
        ensures
            final(self).has_settled(*old(self), event_id@, message_id@, deleted),
    {
        if deleted {
            self.remove_message_mapping(Some(event_id), Some(message_id));
        }
    }

    /// Remembers that a Matrix event became a Discord message, where it could be sent.
    pub fn settle_post(&mut self, matrix_event_id: &str, sent: &Option<String>)
        ensures
            match *sent {
                Some(message) => {
                    &&& final(self).m_messages@ == old(self).m_messages@.insert(
                        matrix_event_id@,
                        message@,
                    )
                    &&& final(self).d_messages@ == old(self).d_messages@.insert(
                        message@,
                        matrix_event_id@,
                    )
                    &&& final(self).same_but_messages(*old(self))
                },
                None => *final(self) == *old(self),
            },
    {
        match sent {
            Some(message) => {
                self.insert_message_mapping(matrix_event_id.to_owned(), message.clone());
            },
            None => {},
        }
    }

    /// Forgets the roles and channels of a guild.
    pub fn remove_guild_data(&mut self, guild_id: &str)
        ensures
            final(self).d_roles@ == old(self).d_roles@.remove(guild_id@),
            final(self).d_channels@ == old(self).d_channels@.remove(guild_id@),
            *final(self) == (Cache {
                d_roles: final(self).d_roles,
                d_channels: final(self).d_channels,
                ..*old(self)
            }),
    {
        self.d_roles.invalidate(guild_id);
        self.d_channels.invalidate(guild_id);
    }

    /// Whether this is what is left of `before` once the members, the emoji and the aliases of a room
    /// are forgotten. Everything of other rooms stays.
    pub open spec fn has_cleared(self, before: Self, room: Seq<char>) -> bool {
        &&& self.m_members@ == before.m_members@.remove(room)
        &&& self.m_custom_emojis@ == before.m_custom_emojis@.remove(room)
        &&& self.m_rooms@ == without_text(before.m_rooms@, room, self.m_rooms.lost())
        &&& before.m_rooms.lost().subset_of(self.m_rooms.lost())
        &&& self == (Cache {
            m_members: self.m_members,
            m_custom_emojis: self.m_custom_emojis,
            m_rooms: self.m_rooms,
            ..before
        })
    }

    /// Forgets the members, the emoji and the aliases of a room.
    pub fn remove_room_data(&mut self, room_id: &str)
        ensures
            final(self).has_cleared(*old(self), room_id@),
    {
        self.m_members.invalidate(room_id);
        self.m_custom_emojis.invalidate(room_id);
        self.m_rooms.invalidate_value(room_id);
    }
}

impl Default for Cache {
    fn default() -> (cache: Self)
        ensures
            cache.is_blank(),
            cache.has_default_limits(),
    {
        Cache::new()
    }
}

/// Once a Matrix event and a Discord message are remembered as the same message, each of them leads
/// to the other.
pub proof fn law_mapping_goes_both_ways(
    before: Cache,
    after: Cache,
    event: Seq<char>,
    message: Seq<char>,
)
    requires
        after.m_messages@ == before.m_messages@.insert(event, message),
        after.d_messages@ == before.d_messages@.insert(message, event),
    ensures
        after.m_messages@.contains_key(event) && after.m_messages@[event] == message,
        after.d_messages@.contains_key(message) && after.d_messages@[message] == event,
{
}

/// A webhook that is remembered for a channel is known by its number, so that what it posts is known
/// to come from the bridge.
pub proof fn law_kept_webhooks_are_known(
    before: Map<Seq<char>, WebhookView>,
    lost: Set<Seq<char>>,
    channel: Seq<char>,
    webhook: WebhookView,
)
    ensures
        has_webhook(before.insert(channel, webhook), lost.remove(channel), webhook.id),
{
    let after = before.insert(channel, webhook);
    assert(after.contains_key(channel) && after[channel].id == webhook.id);
}

/// Once a room is forgotten, no alias that is found leads to it, and the aliases of every other room
/// lead where they led.
pub proof fn law_clearing_a_room_keeps_the_others(
    before: Cache,
    after: Cache,
    room: Seq<char>,
    alias: Seq<char>,
)
    requires
        after.has_cleared(before, room),
    ensures
        after.m_rooms@.contains_key(alias) && !after.m_rooms.lost().contains(alias)
            ==> after.m_rooms@[alias] != room,
        before.m_rooms@.contains_key(alias) && before.m_rooms@[alias] != room
            ==> after.m_rooms@.contains_key(alias) && after.m_rooms@[alias]
            == before.m_rooms@[alias],
        after.m_rooms@.contains_key(alias) ==> before.m_rooms@.contains_key(alias),
{
}

/// A message that was deleted on the other side is deleted once: neither its event nor its message
/// is found again. One that could not be deleted stays, so that it can be tried again.
pub proof fn law_messages_are_deleted_once(
    before: Cache,
    after: Cache,
    event: Seq<char>,
    message: Seq<char>,
    deleted: bool,
    found_message: Option<String>,
    found_event: Option<String>,
)
    requires
        after.has_settled(before, event, message, deleted),
        before.m_messages@.contains_key(event) && before.m_messages@[event] == message,
        before.d_messages@.contains_key(message) && before.d_messages@[message] == event,
        may_find(after.m_messages@, event, found_message),
        may_find(after.d_messages@, message, found_event),
    ensures
        deleted ==> found_message is None && found_event is None,
        !deleted ==> after == before,
        !deleted ==> (found_message matches Some(m) ==> m@ == message),
        !deleted ==> (found_event matches Some(e) ==> e@ == event),
        forall|other: Seq<char>|
            other != event && #[trigger] before.m_messages@.contains_key(other)
                ==> after.m_messages@.contains_key(other) && after.m_messages@[other]
                == before.m_messages@[other],
        forall|other: Seq<char>|
            other != message && #[trigger] before.d_messages@.contains_key(other)
                ==> after.d_messages@.contains_key(other) && after.d_messages@[other]
                == before.d_messages@[other],
{
}

/// To forget a message undoes what was done to remember it.
pub proof fn law_forgetting_undoes_remembering(
    before: Cache,
    kept: Cache,
    after: Cache,
    event: Seq<char>,
    message: Seq<char>,
)
    requires
        !before.m_messages@.contains_key(event),
        !before.d_messages@.contains_key(message),
        kept.m_messages@ == before.m_messages@.insert(event, message),
        kept.d_messages@ == before.d_messages@.insert(message, event),
        after.m_messages@ == kept.m_messages@.remove(event),
        after.d_messages@ == kept.d_messages@.remove(message),
    ensures
        after.m_messages@ == before.m_messages@,
        after.d_messages@ == before.d_messages@,
{
    assert(after.m_messages@ =~= before.m_messages@);
    assert(after.d_messages@ =~= before.d_messages@);
}

/// What a cache answers is what looking the key up in it gives, for every key and every outcome: a
/// text where a text is found, and nothing where nothing is, or something else.
proof fn law_texts_are_answered_by_lookups(
    cache: TextCache,
    key: Seq<char>,
    found: Option<Seq<char>>,
)
    ensures
        cache.answers(key, found) <==> exists|k: &str, entry: Option<CacheEntry>|
            k@ == key && #[trigger] call_ensures(lookup, (&cache.inner, k), entry) && found == (
            match entry {
                Some(CacheEntry::Text(s)) => Some(s@),
                _ => None,
            }),
{
    if cache.answers(key, found) {
        let seen = choose|seen: Option<EntryView>| #[trigger]
            gives(cache.inner, key, seen) && found == (match seen {
                Some(EntryView::Text(s)) => Some(s),
                _ => None,
            });
        let (k, entry) = choose|k: &str, entry: Option<CacheEntry>|
            k@ == key && #[trigger] call_ensures(lookup, (&cache.inner, k), entry) && found_view(
                entry,
            ) == seen;
        assert(call_ensures(lookup, (&cache.inner, k), entry));
    }
    if exists|k: &str, entry: Option<CacheEntry>|
        k@ == key && #[trigger] call_ensures(lookup, (&cache.inner, k), entry) && found == (
        match entry {
            Some(CacheEntry::Text(s)) => Some(s@),
            _ => None,
        }) {
        let (k, entry) = choose|k: &str, entry: Option<CacheEntry>|
            k@ == key && #[trigger] call_ensures(lookup, (&cache.inner, k), entry) && found == (
            match entry {
                Some(CacheEntry::Text(s)) => Some(s@),
                _ => None,
            });
        assert(gives(cache.inner, key, found_view(entry)));
    }
}

/// As with texts, a cache of names answers what looking the key up in it gives.
proof fn law_text_maps_are_answered_by_lookups(
    cache: TextsCache,
    key: Seq<char>,
    found: Option<Map<Seq<char>, Seq<char>>>,
)
    ensures
        cache.answers(key, found) <==> exists|k: &str, entry: Option<CacheEntry>|
            k@ == key && #[trigger] call_ensures(lookup, (&cache.inner, k), entry) && found == (
            match entry {
                Some(CacheEntry::Texts(map)) => Some(map@),
                _ => None,
            }),
{
    if cache.answers(key, found) {
        let seen = choose|seen: Option<EntryView>| #[trigger]
            gives(cache.inner, key, seen) && found == (match seen {
                Some(EntryView::Texts(map)) => Some(map),
                _ => None,
            });
        let (k, entry) = choose|k: &str, entry: Option<CacheEntry>|
            k@ == key && #[trigger] call_ensures(lookup, (&cache.inner, k), entry) && found_view(
                entry,
            ) == seen;
        assert(call_ensures(lookup, (&cache.inner, k), entry));
    }
    if exists|k: &str, entry: Option<CacheEntry>|
        k@ == key && #[trigger] call_ensures(lookup, (&cache.inner, k), entry) && found == (
        match entry {
            Some(CacheEntry::Texts(map)) => Some(map@),
            _ => None,
        }) {
        let (k, entry) = choose|k: &str, entry: Option<CacheEntry>|
            k@ == key && #[trigger] call_ensures(lookup, (&cache.inner, k), entry) && found == (
            match entry {
                Some(CacheEntry::Texts(map)) => Some(map@),
                _ => None,
            });
        assert(gives(cache.inner, key, found_view(entry)));
    }
}

/// As with texts, a cache of members answers what looking the key up in it gives.
proof fn law_members_are_answered_by_lookups(
    cache: MembersCache,
    key: Seq<char>,
    found: Option<Map<Seq<char>, MatrixUserView>>,
)
    ensures
        cache.answers(key, found) <==> exists|k: &str, entry: Option<CacheEntry>|
            k@ == key && #[trigger] call_ensures(lookup, (&cache.inner, k), entry) && found == (
            match entry {
                Some(CacheEntry::Members(map)) => Some(map@),
                _ => None,
            }),
{
    if cache.answers(key, found) {
        let seen = choose|seen: Option<EntryView>| #[trigger]
            gives(cache.inner, key, seen) && found == (match seen {
                Some(EntryView::Members(map)) => Some(map),
                _ => None,
            });
        let (k, entry) = choose|k: &str, entry: Option<CacheEntry>|
            k@ == key && #[trigger] call_ensures(lookup, (&cache.inner, k), entry) && found_view(
                entry,
            ) == seen;
        assert(call_ensures(lookup, (&cache.inner, k), entry));
    }
    if exists|k: &str, entry: Option<CacheEntry>|
        k@ == key && #[trigger] call_ensures(lookup, (&cache.inner, k), entry) && found == (
        match entry {
            Some(CacheEntry::Members(map)) => Some(map@),
            _ => None,
        }) {
        let (k, entry) = choose|k: &str, entry: Option<CacheEntry>|
            k@ == key && #[trigger] call_ensures(lookup, (&cache.inner, k), entry) && found == (
            match entry {
                Some(CacheEntry::Members(map)) => Some(map@),
                _ => None,
            });
        assert(gives(cache.inner, key, found_view(entry)));
    }
}

/// As with texts, a cache of webhooks answers what looking the key up in it gives.
proof fn law_webhooks_are_answered_by_lookups(
    cache: WebhookCache,
    key: Seq<char>,
    found: Option<WebhookView>,
)
    ensures
        cache.answers(key, found) <==> exists|k: &str, entry: Option<CacheEntry>|
            k@ == key && #[trigger] call_ensures(lookup, (&cache.inner, k), entry) && found == (
            match entry {
                Some(CacheEntry::Webhook(webhook)) => Some(webhook@),
                _ => None,
            }),
{
    if cache.answers(key, found) {
        let seen = choose|seen: Option<EntryView>| #[trigger]
            gives(cache.inner, key, seen) && found == (match seen {
                Some(EntryView::Webhook(webhook)) => Some(webhook),
                _ => None,
            });
        let (k, entry) = choose|k: &str, entry: Option<CacheEntry>|
            k@ == key && #[trigger] call_ensures(lookup, (&cache.inner, k), entry) && found_view(
                entry,
            ) == seen;
        assert(call_ensures(lookup, (&cache.inner, k), entry));
    }
    if exists|k: &str, entry: Option<CacheEntry>|
        k@ == key && #[trigger] call_ensures(lookup, (&cache.inner, k), entry) && found == (
        match entry {
            Some(CacheEntry::Webhook(webhook)) => Some(webhook@),
            _ => None,
        }) {
        let (k, entry) = choose|k: &str, entry: Option<CacheEntry>|
            k@ == key && #[trigger] call_ensures(lookup, (&cache.inner, k), entry) && found == (
            match entry {
                Some(CacheEntry::Webhook(webhook)) => Some(webhook@),
                _ => None,
            });
        assert(gives(cache.inner, key, found_view(entry)));
    }
}

/// As with texts, a cache of bytes answers what looking the key up in it gives.
proof fn law_bytes_are_answered_by_lookups(
    cache: BytesCache,
    key: Seq<char>,
    found: Option<Seq<u8>>,
)
    ensures
        cache.answers(key, found) <==> exists|k: &str, entry: Option<CacheEntry>|
            k@ == key && #[trigger] call_ensures(lookup, (&cache.inner, k), entry) && found == (
            match entry {
                Some(CacheEntry::Bytes(bytes)) => Some(bytes@),
                _ => None,
            }),
{
    if cache.answers(key, found) {
        let seen = choose|seen: Option<EntryView>| #[trigger]
            gives(cache.inner, key, seen) && found == (match seen {
                Some(EntryView::Bytes(bytes)) => Some(bytes),
                _ => None,
            });
        let (k, entry) = choose|k: &str, entry: Option<CacheEntry>|
            k@ == key && #[trigger] call_ensures(lookup, (&cache.inner, k), entry) && found_view(
                entry,
            ) == seen;
        assert(call_ensures(lookup, (&cache.inner, k), entry));
    }
    if exists|k: &str, entry: Option<CacheEntry>|
        k@ == key && #[trigger] call_ensures(lookup, (&cache.inner, k), entry) && found == (
        match entry {
            Some(CacheEntry::Bytes(bytes)) => Some(bytes@),
            _ => None,
        }) {
        let (k, entry) = choose|k: &str, entry: Option<CacheEntry>|
            k@ == key && #[trigger] call_ensures(lookup, (&cache.inner, k), entry) && found == (
            match entry {
                Some(CacheEntry::Bytes(bytes)) => Some(bytes@),
                _ => None,
            });
        assert(gives(cache.inner, key, found_view(entry)));
    }
}

/// As with texts, a cache of wishes answers what looking the key up in it gives.
proof fn law_preferences_are_answered_by_lookups(
    cache: PreferenceCache,
    sender: Seq<char>,
    room: Seq<char>,
    found: Option<Option<UserPreferenceView>>,
)
    ensures
        cache.answers(sender, room, found) <==> exists|k: &str, entry: Option<CacheEntry>|
            k@ == pair_key(sender, room) && #[trigger] call_ensures(
                lookup,
                (&cache.inner, k),
                entry,
            ) && found == (
            match entry {
                Some(CacheEntry::Preference(preference)) => Some(preference_view(preference)),
                _ => None,
            }),
{
    if cache.answers(sender, room, found) {
        let seen = choose|seen: Option<EntryView>| #[trigger]
            gives(cache.inner, pair_key(sender, room), seen) && found == (match seen {
                Some(EntryView::Preference(preference)) => Some(preference),
                _ => None,
            });
        let (k, entry) = choose|k: &str, entry: Option<CacheEntry>|
            k@ == pair_key(sender, room) && #[trigger] call_ensures(
                lookup,
                (&cache.inner, k),
                entry,
            ) && found_view(
                entry,
            ) == seen;
        assert(call_ensures(lookup, (&cache.inner, k), entry));
    }
    if exists|k: &str, entry: Option<CacheEntry>|
        k@ == pair_key(sender, room) && #[trigger] call_ensures(
            lookup,
            (&cache.inner, k),
            entry,
        ) && found == (
        match entry {
            Some(CacheEntry::Preference(preference)) => Some(preference_view(preference)),
            _ => None,
        }) {
        let (k, entry) = choose|k: &str, entry: Option<CacheEntry>|
            k@ == pair_key(sender, room) && #[trigger] call_ensures(
                lookup,
                (&cache.inner, k),
                entry,
            ) && found == (
            match entry {
                Some(CacheEntry::Preference(preference)) => Some(preference_view(preference)),
                _ => None,
            });
        assert(gives(cache.inner, pair_key(sender, room), found_view(entry)));
    }
}

/// What concerns messages and names is kept for a week, what the networks may change at any time for
/// an hour, and all else for a day.
pub proof fn law_how_long_things_are_kept(cache: Cache)
    requires
        cache.has_default_limits(),
    ensures
        cache.m_rooms.limits().1 == 7 * 24 * 60 * 60,
        cache.m_messages.limits() == cache.d_messages.limits(),
        cache.m_messages.limits().1 == 7 * 24 * 60 * 60,
        cache.d_emotes.limits() == cache.m_emotes.limits(),
        cache.d_emotes.limits() == cache.m_rooms.limits(),
        cache.m_members.limits().1 == 60 * 60,
        cache.user_prefs.limits().1 == cache.m_members.limits().1,
        cache.d_webhooks.limits().1 == 24 * 60 * 60,
        cache.m_custom_emojis.limits() == cache.d_webhooks.limits(),
        cache.d_roles.limits() == cache.d_webhooks.limits(),
        cache.d_channels.limits() == cache.d_webhooks.limits(),
        cache.m_avatars.limits() == ((50 * 1024 * 1024) as nat, (24 * 60 * 60) as nat),
        cache.m_messages.limits().0 == 5 * cache.m_rooms.limits().0,
        cache.m_rooms.limits().0 == 10 * cache.d_webhooks.limits().0,
        cache.m_members.limits().0 == cache.d_webhooks.limits().0,
        cache.user_prefs.limits().0 == cache.m_rooms.limits().0,
        cache.d_webhooks.limits().0 == 1_000,
{
}

} // verus!
