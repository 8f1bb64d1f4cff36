//! Durable storage and lookup for canonical artist names, cached similarity
//! pairs, and the single API credential.
//!
//! The store is the write-back cache behind the resolver: artists are keyed
//! case-insensitively by a lower-cased lookup key, and similarity pairs are
//! inserted idempotently (a duplicate insert is a no-op, never an update).

use vstd::prelude::*;

verus! {

/// What `str::to_lowercase` returns; it depends on the characters alone.
pub uninterp spec fn lower_of(s: Seq<char>) -> Seq<char>;

/// Relies on `str::to_lowercase`: the lower-case equivalent of `s`.
#[verifier::external_body]
fn to_lowercase(s: &str) -> (r: String)
    ensures
        r@ == lower_of(s@),
{
    s.to_lowercase()
}

/// What `str::trim` returns; it depends on the characters alone.
pub uninterp spec fn trim_of(s: Seq<char>) -> Seq<char>;

/// Relies on `str::trim`: `s` without leading and trailing whitespace.
#[verifier::external_body]
fn trim(s: &str) -> (r: String)
    ensures
        r@ == trim_of(s@),
{
    s.trim().to_owned()
}

/// One cached parent→child similarity edge, as stored in the pair table.
/// Similarity is an integer between 0 and 100.
#[derive(Debug)]
pub struct ArtistPair {
    pub parent: String,
    pub child: String,
    pub similarity: i64,
}

/// The mathematical value of an [`ArtistPair`].
pub ghost struct PairModel {
    pub parent: Seq<char>,
    pub child: Seq<char>,
    pub similarity: int,
}

impl View for ArtistPair {
    type V = PairModel;

    open spec fn view(&self) -> PairModel {
        PairModel { parent: self.parent@, child: self.child@, similarity: self.similarity as int }
    }
}

/// One row of the artist table: the canonical spelling, its lower-cased
/// lookup key, and optional listener and tag data.
struct ArtistRow {
    name: String,
    name_lower: String,
    listeners: Option<u32>,
    tags: Option<Vec<String>>,
}

/// The mathematical value of one artist row.
pub ghost struct ArtistRowModel {
    pub name: Seq<char>,
    pub lower: Seq<char>,
    pub listeners: Option<u32>,
    pub tags: Option<Seq<Seq<char>>>,
}

impl View for ArtistRow {
    type V = ArtistRowModel;

    closed spec fn view(&self) -> ArtistRowModel {
        ArtistRowModel {
            name: self.name@,
            lower: self.name_lower@,
            listeners: self.listeners,
            tags: match self.tags {
                Some(ts) => Some(strings_view(ts@)),
                None => None,
            },
        }
    }
}

/// The mathematical value of a whole [`Store`].
pub ghost struct StoreModel {
    pub artists: Seq<ArtistRowModel>,
    pub pairs: Seq<PairModel>,
    pub api_key: Option<Seq<char>>,
}

/// A well-formed stored pair: similarity within 0..=100 and never a
/// self-loop.
pub open spec fn pair_ok(p: PairModel) -> bool {
    &&& 0 <= p.similarity <= 100
    &&& p.parent != p.child
}

/// The empty store: no artists, no pairs, no API key.
pub open spec fn spec_empty_store() -> StoreModel {
    StoreModel { artists: Seq::empty(), pairs: Seq::empty(), api_key: None }
}

/// The index of the first artist row whose lookup key is `lower`.
pub open spec fn spec_find_artist(artists: Seq<ArtistRowModel>, lower: Seq<char>) -> Option<int>
    decreases artists.len(),
{
    if artists.len() == 0 {
        None
    } else if artists[0].lower == lower {
        Some(0int)
    } else {
        match spec_find_artist(artists.drop_first(), lower) {
            Some(i) => Some(i + 1),
            None => None,
        }
    }
}

/// Case-insensitive canonical lookup: the stored canonical spelling of
/// `name`, if any spelling of it has ever been recorded.
pub open spec fn spec_resolve_canonical(m: StoreModel, name: Seq<char>) -> Option<Seq<char>> {
    match spec_find_artist(m.artists, lower_of(name)) {
        Some(i) => Some(m.artists[i].name),
        None => None,
    }
}

/// Idempotent artist insert: a no-op when any spelling with the same
/// lookup key is already present (the first recorded spelling wins).
pub open spec fn spec_store_artist(m: StoreModel, canon: Seq<char>) -> StoreModel {
    if spec_find_artist(m.artists, lower_of(canon)) is Some {
        m
    } else {
        StoreModel {
            artists: m.artists.push(
                ArtistRowModel { name: canon, lower: lower_of(canon), listeners: None, tags: None },
            ),
            ..m
        }
    }
}

/// Whether a pair keyed (`parent`, `child`) is already stored.
pub open spec fn spec_has_pair(pairs: Seq<PairModel>, parent: Seq<char>, child: Seq<char>) -> bool {
    exists|i: int|
        0 <= i < pairs.len() && pairs[i].parent == parent && pairs[i].child == child
}

/// Idempotent pair insert, keyed by (`parent`, `child`): a duplicate and a
/// self-loop are both no-ops, and an existing similarity is never
/// overwritten.
pub open spec fn spec_store_pair(
    m: StoreModel,
    parent: Seq<char>,
    child: Seq<char>,
    similarity: int,
) -> StoreModel {
    if parent == child || spec_has_pair(m.pairs, parent, child) {
        m
    } else {
        StoreModel { pairs: m.pairs.push(PairModel { parent, child, similarity }), ..m }
    }
}

/// The stored pairs whose parent is exactly `parent`, in insertion order.
pub open spec fn spec_pairs_for(pairs: Seq<PairModel>, parent: Seq<char>) -> Seq<PairModel>
    decreases pairs.len(),
{
    if pairs.len() == 0 {
        Seq::empty()
    } else {
        (if pairs[0].parent == parent {
            seq![pairs[0]]
        } else {
            Seq::empty()
        }) + spec_pairs_for(pairs.drop_first(), parent)
    }
}

/// Stable insertion into a descending-similarity list: the new pair goes
/// after every pair at least as similar, so equal similarities keep their
/// insertion order.
pub open spec fn spec_insert_desc(sorted: Seq<PairModel>, p: PairModel) -> Seq<PairModel>
    decreases sorted.len(),
{
    if sorted.len() == 0 {
        seq![p]
    } else if sorted[0].similarity >= p.similarity {
        seq![sorted[0]] + spec_insert_desc(sorted.drop_first(), p)
    } else {
        seq![p] + sorted
    }
}

/// Stable sort by similarity, descending.
pub open spec fn spec_sort_desc(s: Seq<PairModel>) -> Seq<PairModel>
    decreases s.len(),
{
    if s.len() == 0 {
        Seq::empty()
    } else {
        spec_insert_desc(spec_sort_desc(s.drop_last()), s.last())
    }
}

/// What `get_artist_pairs` returns: a miss when the artist was never
/// resolved, otherwise its cached pairs sorted by similarity descending,
/// with an empty result reported as absent.
pub open spec fn spec_get_artist_pairs(m: StoreModel, name: Seq<char>) -> Option<Seq<PairModel>> {
    match spec_resolve_canonical(m, name) {
        None => None,
        Some(c) => {
            let ps = spec_sort_desc(spec_pairs_for(m.pairs, c));
            if ps.len() == 0 {
                None
            } else {
                Some(ps)
            }
        },
    }
}

/// The pair models of a vector of stored pairs.
pub open spec fn pairs_view(s: Seq<ArtistPair>) -> Seq<PairModel> {
    s.map_values(|p: ArtistPair| p@)
}

/// The character sequences of a vector of strings.
pub open spec fn strings_view(s: Seq<String>) -> Seq<Seq<char>> {
    s.map_values(|x: String| x@)
}

/// In-memory similarity store: the artist table, the pair table, and the
/// API credential, mirroring the persisted layout.
pub struct Store {
    artists: Vec<ArtistRow>,
    pairs: Vec<ArtistPair>,
    api_key: Option<String>,
}

impl View for Store {
    type V = StoreModel;

    closed spec fn view(&self) -> StoreModel {
        StoreModel {
            artists: self.artists@.map_values(|r: ArtistRow| r@),
            pairs: pairs_view(self.pairs@),
            api_key: match self.api_key {
                Some(k) => Some(k@),
                None => None,
            },
        }
    }
}

/// Properties of the first-match search: where it points, the key matches;
/// everything earlier does not; and a miss means nothing matches.
pub proof fn lemma_find_artist_props(artists: Seq<ArtistRowModel>, lower: Seq<char>)
    ensures
        match spec_find_artist(artists, lower) {
            Some(i) => 0 <= i < artists.len() && artists[i].lower == lower && (forall|k: int|
                0 <= k < i ==> artists[k].lower != lower),
            None => forall|k: int| 0 <= k < artists.len() ==> artists[k].lower != lower,
        },
    decreases artists.len(),
{
    if artists.len() > 0 && artists[0].lower != lower {
        lemma_find_artist_props(artists.drop_first(), lower);
        assert(forall|k: int|
            1 <= k < artists.len() ==> artists[k] == artists.drop_first()[k - 1]);
    }
}

/// The first-match search finds exactly the position that a left-to-right
/// scan stops at.
pub proof fn lemma_find_artist_at(artists: Seq<ArtistRowModel>, lower: Seq<char>, i: int)
    requires
        0 <= i <= artists.len(),
        forall|k: int| 0 <= k < i ==> artists[k].lower != lower,
        i < artists.len() ==> artists[i].lower == lower,
    ensures
        spec_find_artist(artists, lower) == (if i < artists.len() {
            Some(i)
        } else {
            None::<int>
        }),
    decreases artists.len(),
{
    if artists.len() == 0 {
    } else if artists[0].lower == lower {
        assert(i == 0);
    } else {
        assert(i >= 1);
        assert(forall|k: int|
            0 <= k < artists.len() - 1 ==> artists.drop_first()[k] == artists[k + 1]);
        lemma_find_artist_at(artists.drop_first(), lower, i - 1);
    }
}

impl Store {
    /// All stored pairs are well-formed, and the (parent, child) key is
    /// unique.
    #[verifier::type_invariant]
    spec fn inv(self) -> bool {
        &&& forall|i: int| 0 <= i < self@.pairs.len() ==> pair_ok(#[trigger] self@.pairs[i])
        &&& forall|i: int, j: int|
            #![trigger self@.pairs[i], self@.pairs[j]]
            0 <= i < j < self@.pairs.len() ==> !(self@.pairs[i].parent == self@.pairs[j].parent
                && self@.pairs[i].child == self@.pairs[j].child)
    }

    /// A fresh, empty store.
    pub fn new() -> (s: Store)
        ensures
            s@ == spec_empty_store(),
    {
        let s = Store { artists: Vec::new(), pairs: Vec::new(), api_key: None };
        proof {
            assert(s@.artists =~= spec_empty_store().artists);
            assert(s@.pairs =~= spec_empty_store().pairs);
        }
        s
    }

    /// The index of the first artist row with lookup key `lower`.
    fn find_artist_index(&self, lower: &String) -> (r: Option<usize>)
        ensures
            match r {
                Some(i) => i < self.artists.len() && spec_find_artist(self@.artists, lower@)
                    == Some(i as int),
                None => spec_find_artist(self@.artists, lower@) is None,
            },
    {
        let n = self.artists.len();
        let mut i: usize = 0;
        while i < n
            invariant
                0 <= i <= n,
                n == self.artists.len(),
                forall|k: int| 0 <= k < i ==> self@.artists[k].lower != lower@,
            decreases n - i,
        {
            if self.artists[i].name_lower.eq(lower) {
                proof {
                    lemma_find_artist_at(self@.artists, lower@, i as int);
                }
                return Some(i);
            }
            i = i + 1;
        }
        proof {
            lemma_find_artist_at(self@.artists, lower@, n as int);
        }
        None
    }

    /// Case-insensitive lookup of the canonical spelling of `name`: the
    /// stored spelling if any spelling of this artist was ever recorded.
    pub fn canonical_name(&self, name: &str) -> (r: Option<String>)
        ensures
            match r {
                Some(c) => spec_resolve_canonical(self@, name@) == Some(c@),
                None => spec_resolve_canonical(self@, name@) is None,
            },
    {
        let lower = to_lowercase(name);
        match self.find_artist_index(&lower) {
            Some(i) => Some(self.artists[i].name.clone()),
            None => None,
        }
    }

    /// Record a canonical artist spelling, skipping the insert when any
    /// spelling with the same lookup key already exists (first writer
    /// wins).
    pub fn store(&mut self, canon_name: &str)
        ensures
            final(self)@ == spec_store_artist(old(self)@, canon_name@),
    {
        proof {
            use_type_invariant(&*self);
        }
        let lower = to_lowercase(canon_name);
        match self.find_artist_index(&lower) {
            Some(_) => {},
            None => {
                let row = ArtistRow {
                    name: canon_name.to_owned(),
                    name_lower: lower,
                    listeners: None,
                    tags: None,
                };
                let ghost old_model = self@;
                let mut rows: Vec<ArtistRow> = Vec::new();
                core::mem::swap(&mut rows, &mut self.artists);
                rows.push(row);
                core::mem::swap(&mut rows, &mut self.artists);
                proof {
                    assert(self@.artists =~= spec_store_artist(old_model, canon_name@).artists);
                    assert(self@.pairs =~= old_model.pairs);
                }
            },
        }
    }

    /// Whether a pair keyed (`parent`, `child`) is already stored.
    fn has_pair(&self, parent: &String, child: &String) -> (r: bool)
        ensures
            r == spec_has_pair(self@.pairs, parent@, child@),
    {
        let n = self.pairs.len();
        let mut i: usize = 0;
        while i < n
            invariant
                0 <= i <= n,
                n == self.pairs.len(),
                forall|k: int|
                    #![trigger self@.pairs[k]]
                    0 <= k < i ==> !(self@.pairs[k].parent == parent@ && self@.pairs[k].child
                        == child@),
            decreases n - i,
        {
            if self.pairs[i].parent.eq(parent) && self.pairs[i].child.eq(child) {
                proof {
                    assert(0 <= i < self@.pairs.len() && self@.pairs[i as int].parent == parent@
                        && self@.pairs[i as int].child == child@);
                }
                return true;
            }
            i = i + 1;
        }
        false
    }

    /// Record one parent→child similarity pair, skipping the insert when
    /// the (parent, child) key already exists or the pair would be a
    /// self-loop. An existing similarity value is never overwritten.
    pub fn store_pair(&mut self, parent: &str, child: &str, similarity: i64)
        requires
            0 <= similarity <= 100,
        ensures
            final(self)@ == spec_store_pair(old(self)@, parent@, child@, similarity as int),
    {
        proof {
            use_type_invariant(&*self);
        }
        let p = parent.to_owned();
        let c = child.to_owned();
        if p.eq(&c) {
            return ;
        }
        if !self.has_pair(&p, &c) {
            let ghost old_model = self@;
            let ghost pm = PairModel { parent: parent@, child: child@, similarity: similarity as int };
            let mut rows: Vec<ArtistPair> = Vec::new();
            core::mem::swap(&mut rows, &mut self.pairs);
            rows.push(ArtistPair { parent: p, child: c, similarity });
            proof {
                assert(pairs_view(rows@) =~= old_model.pairs.push(pm));
                assert forall|k: int| 0 <= k < pairs_view(rows@).len() implies pair_ok(
                    #[trigger] pairs_view(rows@)[k],
                ) by {
                    if k < old_model.pairs.len() {
                        assert(pairs_view(rows@)[k] == old_model.pairs[k]);
                    } else {
                        assert(pairs_view(rows@)[k] == pm);
                    }
                }
                assert forall|a: int, b: int|
                    #![trigger pairs_view(rows@)[a], pairs_view(rows@)[b]]
                    0 <= a < b < pairs_view(rows@).len() implies !(pairs_view(rows@)[a].parent
                    == pairs_view(rows@)[b].parent && pairs_view(rows@)[a].child == pairs_view(
                    rows@,
                )[b].child) by {
                    if b == old_model.pairs.len() {
                        if pairs_view(rows@)[a].parent == pm.parent && pairs_view(rows@)[a].child
                            == pm.child {
                            assert(spec_has_pair(old_model.pairs, parent@, child@));
                        }
                    }
                }
            }
            core::mem::swap(&mut rows, &mut self.pairs);
            proof {
                assert(self@.pairs =~= spec_store_pair(
                    old_model,
                    parent@,
                    child@,
                    similarity as int,
                ).pairs);
                assert(self@.artists =~= old_model.artists);
            }
        }
    }

    /// The cached pairs of `name`'s canonical artist, sorted by similarity
    /// descending; absent when the artist was never resolved or has no
    /// cached pairs.
    pub fn get_artist_pairs(&self, name: &str) -> (r: Option<Vec<ArtistPair>>)
        ensures
            match r {
                Some(v) => spec_get_artist_pairs(self@, name@) == Some(pairs_view(v@)) && (forall|
                    i: int,
                |
                    0 <= i < v@.len() ==> pair_ok(#[trigger] pairs_view(v@)[i])),
                None => spec_get_artist_pairs(self@, name@) is None,
            },
    {
        proof {
            use_type_invariant(&*self);
        }
        let canon = match self.canonical_name(name) {
            Some(c) => c,
            None => {
                return None;
            },
        };
        let n = self.pairs.len();
        let mut selected: Vec<ArtistPair> = Vec::new();
        proof {
            assert(self@.pairs.skip(0) =~= self@.pairs);
            assert(pairs_view(selected@) =~= Seq::<PairModel>::empty());
            assert(pairs_view(selected@) + spec_pairs_for(self@.pairs, canon@)
                =~= spec_pairs_for(self@.pairs, canon@));
        }
        let mut i: usize = 0;
        while i < n
            invariant
                0 <= i <= n,
                n == self.pairs.len(),
                spec_resolve_canonical(self@, name@) == Some(canon@),
                pairs_view(selected@) + spec_pairs_for(self@.pairs.skip(i as int), canon@)
                    == spec_pairs_for(self@.pairs, canon@),
                forall|k: int| 0 <= k < selected@.len() ==> pair_ok(#[trigger] pairs_view(
                    selected@,
                )[k]),
                forall|k: int| 0 <= k < self@.pairs.len() ==> pair_ok(#[trigger] self@.pairs[k]),
            decreases n - i,
        {
            let ghost pre = pairs_view(selected@);
            proof {
                assert(self@.pairs.skip(i as int).drop_first() =~= self@.pairs.skip(i as int + 1));
                assert(self@.pairs.skip(i as int)[0] == self@.pairs[i as int]);
            }
            if self.pairs[i].parent.eq(&canon) {
                let item = clone_pair(&self.pairs[i]);
                selected.push(item);
                proof {
                    assert(pairs_view(selected@) =~= pre.push(self@.pairs[i as int]));
                    assert(pairs_view(selected@) + spec_pairs_for(
                        self@.pairs.skip(i as int + 1),
                        canon@,
                    ) =~= spec_pairs_for(self@.pairs, canon@));
                }
            } else {
                proof {
                    assert(pairs_view(selected@) + spec_pairs_for(
                        self@.pairs.skip(i as int + 1),
                        canon@,
                    ) =~= spec_pairs_for(self@.pairs, canon@));
                }
            }
            i = i + 1;
        }
        proof {
            assert(self@.pairs.skip(n as int) =~= Seq::<PairModel>::empty());
            assert(pairs_view(selected@) =~= spec_pairs_for(self@.pairs, canon@));
        }
        let sorted = sort_pairs_desc(selected);
        if sorted.len() == 0 {
            proof {
                lemma_sort_desc_len(spec_pairs_for(self@.pairs, canon@));
            }
            None
        } else {
            proof {
                lemma_sort_desc_len(spec_pairs_for(self@.pairs, canon@));
            }
            Some(sorted)
        }
    }

    /// Record the listener count for an already-recorded artist; a no-op
    /// when no spelling of the artist exists.
    pub fn store_listeners(&mut self, name: &str, listeners: u32)
        ensures
            final(self)@ == spec_store_listeners(old(self)@, name@, listeners),
    {
        proof {
            use_type_invariant(&*self);
        }
        let lower = to_lowercase(name);
        match self.find_artist_index(&lower) {
            Some(i) => {
                let ghost old_model = self@;
                let row = ArtistRow {
                    name: self.artists[i].name.clone(),
                    name_lower: self.artists[i].name_lower.clone(),
                    listeners: Some(listeners),
                    tags: clone_tags(&self.artists[i].tags),
                };
                let mut rows: Vec<ArtistRow> = Vec::new();
                core::mem::swap(&mut rows, &mut self.artists);
                rows[i] = row;
                core::mem::swap(&mut rows, &mut self.artists);
                proof {
                    assert(self@.artists =~= spec_store_listeners(
                        old_model,
                        name@,
                        listeners,
                    ).artists);
                    assert(self@.pairs =~= old_model.pairs);
                }
            },
            None => {},
        }
    }

    /// The stored listener count of `name`'s artist, if any.
    pub fn get_listeners_db(&self, name: &str) -> (r: Option<i64>)
        ensures
            r == spec_get_listeners(self@, name@),
    {
        let lower = to_lowercase(name);
        match self.find_artist_index(&lower) {
            Some(i) => match self.artists[i].listeners {
                Some(x) => Some(x as i64),
                None => None,
            },
            None => None,
        }
    }

    /// Record the tag list for an already-recorded artist; a no-op when no
    /// spelling of the artist exists.
    pub fn store_tags(&mut self, name: &str, tags: &Vec<String>)
        ensures
            final(self)@ == spec_store_tags(old(self)@, name@, strings_view(tags@)),
    {
        proof {
            use_type_invariant(&*self);
        }
        let lower = to_lowercase(name);
        match self.find_artist_index(&lower) {
            Some(i) => {
                let ghost old_model = self@;
                let ts = clone_string_vec(tags);
                let row = ArtistRow {
                    name: self.artists[i].name.clone(),
                    name_lower: self.artists[i].name_lower.clone(),
                    listeners: self.artists[i].listeners,
                    tags: Some(ts),
                };
                let mut rows: Vec<ArtistRow> = Vec::new();
                core::mem::swap(&mut rows, &mut self.artists);
                rows[i] = row;
                core::mem::swap(&mut rows, &mut self.artists);
                proof {
                    assert(self@.artists =~= spec_store_tags(
                        old_model,
                        name@,
                        strings_view(tags@),
                    ).artists);
                    assert(self@.pairs =~= old_model.pairs);
                }
            },
            None => {},
        }
    }

    /// The stored tag list of `name`'s artist, if any.
    pub fn get_tags_db(&self, name: &str) -> (r: Option<Vec<String>>)
        ensures
            match r {
                Some(ts) => spec_get_tags(self@, name@) == Some(strings_view(ts@)),
                None => spec_get_tags(self@, name@) is None,
            },
    {
        let lower = to_lowercase(name);
        match self.find_artist_index(&lower) {
            Some(i) => match &self.artists[i].tags {
                Some(ts) => Some(clone_string_vec(ts)),
                None => None,
            },
            None => None,
        }
    }

    /// The configured API key, if one is set.
    pub fn get_api_key(&self) -> (r: Option<String>)
        ensures
            match r {
                Some(k) => self@.api_key == Some(k@),
                None => self@.api_key is None,
            },
    {
        match &self.api_key {
            Some(k) => Some(k.clone()),
            None => None,
        }
    }

    /// Store the API credential, trimmed of surrounding whitespace. The
    /// first stored key wins; a later write while a key exists is a no-op
    /// (clear the key first to replace it). Validating the key against the
    /// remote service is the caller's step before this write.
    pub fn store_api_key(&mut self, key: &str)
        ensures
            final(self)@.artists == old(self)@.artists,
            final(self)@.pairs == old(self)@.pairs,
            final(self)@.api_key == (if old(self)@.api_key is Some {
                old(self)@.api_key
            } else {
                Some(trim_of(key@))
            }),
    {
        proof {
            use_type_invariant(&*self);
            assert(forall|i: int|
                0 <= i < self@.pairs.len() ==> pair_ok(#[trigger] self@.pairs[i]));
        }
        if self.api_key.is_none() {
            self.api_key = Some(trim(key));
        }
    }

    /// Remove the API credential.
    pub fn delete_api_key(&mut self)
        ensures
            final(self)@.artists == old(self)@.artists,
            final(self)@.pairs == old(self)@.pairs,
            final(self)@.api_key is None,
    {
        proof {
            use_type_invariant(&*self);
            assert(forall|i: int|
                0 <= i < self@.pairs.len() ==> pair_ok(#[trigger] self@.pairs[i]));
        }
        self.api_key = None;
    }

    /// The stored pairs, in insertion order, for the persistence layer.
    pub fn pairs(&self) -> (r: &Vec<ArtistPair>)
        ensures
            pairs_view(r@) == self@.pairs,
    {
        &self.pairs
    }

    /// The artist rows — canonical name, listener count, tags — in
    /// insertion order, for the persistence layer. The lower-cased lookup
    /// key is derived from the name, so re-recording the names in order
    /// rebuilds the table.
    pub fn export_artists(&self) -> (r: Vec<(String, Option<u32>, Option<Vec<String>>)>)
        ensures
            r@.len() == self@.artists.len(),
            forall|k: int|
                0 <= k < r@.len() ==> ((#[trigger] r@[k]).0@ == self@.artists[k].name && r@[k].1
                    == self@.artists[k].listeners && (match r@[k].2 {
                    Some(ts) => self@.artists[k].tags == Some(strings_view(ts@)),
                    None => self@.artists[k].tags is None,
                })),
    {
        let mut r: Vec<(String, Option<u32>, Option<Vec<String>>)> = Vec::new();
        let n = self.artists.len();
        let mut i: usize = 0;
        while i < n
            invariant
                0 <= i <= n,
                n == self.artists.len(),
                r@.len() == i,
                forall|k: int|
                    0 <= k < i ==> ((#[trigger] r@[k]).0@ == self@.artists[k].name && r@[k].1
                        == self@.artists[k].listeners && (match r@[k].2 {
                        Some(ts) => self@.artists[k].tags == Some(strings_view(ts@)),
                        None => self@.artists[k].tags is None,
                    })),
            decreases n - i,
        {
            let row = (
                self.artists[i].name.clone(),
                self.artists[i].listeners,
                clone_tags(&self.artists[i].tags),
            );
            r.push(row);
            i = i + 1;
        }
        r
    }
}

/// Listener update: set the listeners field of the found row, leaving
/// everything else unchanged.
pub open spec fn spec_store_listeners(m: StoreModel, name: Seq<char>, listeners: u32) -> StoreModel {
    match spec_find_artist(m.artists, lower_of(name)) {
        Some(i) => StoreModel {
            artists: m.artists.update(
                i,
                ArtistRowModel { listeners: Some(listeners), ..m.artists[i] },
            ),
            ..m
        },
        None => m,
    }
}

/// The stored listener count of `name`'s artist, if any.
pub open spec fn spec_get_listeners(m: StoreModel, name: Seq<char>) -> Option<i64> {
    match spec_find_artist(m.artists, lower_of(name)) {
        Some(i) => match m.artists[i].listeners {
            Some(x) => Some(x as i64),
            None => None,
        },
        None => None,
    }
}

/// Tag update: set the tags field of the found row, leaving everything
/// else unchanged.
pub open spec fn spec_store_tags(m: StoreModel, name: Seq<char>, tags: Seq<Seq<char>>) -> StoreModel {
    match spec_find_artist(m.artists, lower_of(name)) {
        Some(i) => StoreModel {
            artists: m.artists.update(i, ArtistRowModel { tags: Some(tags), ..m.artists[i] }),
            ..m
        },
        None => m,
    }
}

/// The stored tag list of `name`'s artist, if any.
pub open spec fn spec_get_tags(m: StoreModel, name: Seq<char>) -> Option<Seq<Seq<char>>> {
    match spec_find_artist(m.artists, lower_of(name)) {
        Some(i) => m.artists[i].tags,
        None => None,
    }
}

/// An exact copy of a stored pair.
fn clone_pair(p: &ArtistPair) -> (r: ArtistPair)
    ensures
        r@ == p@,
{
    ArtistPair { parent: p.parent.clone(), child: p.child.clone(), similarity: p.similarity }
}

/// An exact copy of a string vector.
pub(crate) fn clone_string_vec(v: &Vec<String>) -> (r: Vec<String>)
    ensures
        strings_view(r@) == strings_view(v@),
{
    let mut r: Vec<String> = Vec::new();
    let n = v.len();
    let mut i: usize = 0;
    while i < n
        invariant
            0 <= i <= n,
            n == v.len(),
            strings_view(r@) =~= strings_view(v@).take(i as int),
        decreases n - i,
    {
        let ghost old_r = r@;
        r.push(v[i].clone());
        proof {
            assert(strings_view(v@).len() == v@.len());
            assert(strings_view(v@).take(i as int).len() == i);
            assert(strings_view(old_r).len() == i);
            assert(old_r.len() == i);
            assert(r@.len() == i + 1);
            assert(strings_view(r@) =~= strings_view(v@).take(i as int + 1));
        }
        i = i + 1;
    }
    proof {
        assert(strings_view(v@).take(n as int) =~= strings_view(v@));
    }
    r
}

/// An exact copy of an optional tag list.
fn clone_tags(t: &Option<Vec<String>>) -> (r: Option<Vec<String>>)
    ensures
        match r {
            Some(v) => *t is Some && strings_view(v@) == strings_view(t.unwrap()@),
            None => *t is None,
        },
{
    match t {
        Some(v) => Some(clone_string_vec(v)),
        None => None,
    }
}

/// Stable insertion places the new pair exactly where a left-to-right scan
/// first finds a strictly smaller similarity.
proof fn lemma_insert_desc_at(sorted: Seq<PairModel>, p: PairModel, j: int)
    requires
        0 <= j <= sorted.len(),
        forall|k: int| 0 <= k < j ==> sorted[k].similarity >= p.similarity,
        j < sorted.len() ==> sorted[j].similarity < p.similarity,
    ensures
        spec_insert_desc(sorted, p) == sorted.take(j) + seq![p] + sorted.skip(j),
    decreases j,
{
    if j == 0 {
        if sorted.len() == 0 {
            assert(spec_insert_desc(sorted, p) =~= sorted.take(0) + seq![p] + sorted.skip(0));
        } else {
            assert(spec_insert_desc(sorted, p) =~= sorted.take(0) + seq![p] + sorted.skip(0));
        }
    } else {
        assert(sorted.len() > 0);
        assert(sorted[0].similarity >= p.similarity);
        assert(forall|k: int|
            0 <= k < sorted.len() - 1 ==> sorted.drop_first()[k] == sorted[k + 1]);
        lemma_insert_desc_at(sorted.drop_first(), p, j - 1);
        assert(spec_insert_desc(sorted, p) =~= sorted.take(j) + seq![p] + sorted.skip(j));
    }
}

/// Sorting keeps the number of pairs.
proof fn lemma_insert_desc_len(sorted: Seq<PairModel>, p: PairModel)
    ensures
        spec_insert_desc(sorted, p).len() == sorted.len() + 1,
    decreases sorted.len(),
{
    if sorted.len() > 0 && sorted[0].similarity >= p.similarity {
        lemma_insert_desc_len(sorted.drop_first(), p);
    }
}

/// Sorting keeps the number of pairs.
pub proof fn lemma_sort_desc_len(s: Seq<PairModel>)
    ensures
        spec_sort_desc(s).len() == s.len(),
    decreases s.len(),
{
    if s.len() > 0 {
        lemma_sort_desc_len(s.drop_last());
        lemma_insert_desc_len(spec_sort_desc(s.drop_last()), s.last());
    }
}

/// Insertion sort by descending similarity, stable: pairs of equal
/// similarity keep their input order.
fn sort_pairs_desc(input: Vec<ArtistPair>) -> (r: Vec<ArtistPair>)
    requires
        forall|i: int| 0 <= i < input@.len() ==> pair_ok(#[trigger] pairs_view(input@)[i]),
    ensures
        pairs_view(r@) == spec_sort_desc(pairs_view(input@)),
        forall|i: int| 0 <= i < r@.len() ==> pair_ok(#[trigger] pairs_view(r@)[i]),
{
    let n = input.len();
    let mut out: Vec<ArtistPair> = Vec::new();
    let mut i: usize = 0;
    while i < n
        invariant
            0 <= i <= n,
            n == input.len(),
            forall|k: int| 0 <= k < input@.len() ==> pair_ok(#[trigger] pairs_view(input@)[k]),
            pairs_view(out@) == spec_sort_desc(pairs_view(input@).take(i as int)),
            forall|k: int| 0 <= k < out@.len() ==> pair_ok(#[trigger] pairs_view(out@)[k]),
        decreases n - i,
    {
        let p = clone_pair(&input[i]);
        let m = out.len();
        let mut j: usize = 0;
        while j < m && out[j].similarity >= p.similarity
            invariant
                0 <= j <= m,
                m == out.len(),
                p@ == pairs_view(input@)[i as int],
                forall|k: int| 0 <= k < j ==> pairs_view(out@)[k].similarity >= p@.similarity,
            decreases m - j,
        {
            j = j + 1;
        }
        let ghost pre = pairs_view(out@);
        proof {
            lemma_insert_desc_at(pre, p@, j as int);
        }
        out.insert(j, p);
        proof {
            assert(pairs_view(out@) =~= pre.take(j as int) + seq![pairs_view(input@)[i as int]]
                + pre.skip(j as int));
            assert(pairs_view(input@).take(i as int + 1).drop_last() =~= pairs_view(input@).take(
                i as int,
            ));
            assert(pairs_view(out@) == spec_sort_desc(pairs_view(input@).take(i as int + 1)));
        }
        i = i + 1;
    }
    proof {
        assert(pairs_view(input@).take(n as int) =~= pairs_view(input@));
    }
    out
}

/// Law: sorting an already ranked list changes nothing. The remote service
/// returns children most-similar first, so the cached, sorted reading of a
/// fetched list preserves the service's own order (the sort is stable, so
/// ties keep their insertion order too).
pub proof fn lemma_sort_desc_of_sorted(s: Seq<PairModel>)
    requires
        forall|i: int, j: int|
            #![trigger s[i], s[j]]
            0 <= i < j < s.len() ==> s[i].similarity >= s[j].similarity,
    ensures
        spec_sort_desc(s) == s,
    decreases s.len(),
{
    if s.len() > 0 {
        let pre = s.drop_last();
        assert(forall|i: int, j: int|
            #![trigger pre[i], pre[j]]
            0 <= i < j < pre.len() ==> pre[i].similarity >= pre[j].similarity);
        lemma_sort_desc_of_sorted(pre);
        assert(forall|k: int| 0 <= k < pre.len() ==> (#[trigger] pre[k]).similarity
            >= s.last().similarity);
        lemma_insert_desc_at(pre, s.last(), pre.len() as int);
        assert(pre.take(pre.len() as int) + seq![s.last()] + pre.skip(pre.len() as int) =~= s);
    }
}

/// Law: recording the same (parent, child) edge twice leaves exactly the
/// store that the first recording produced; the duplicate insert is a
/// no-op and never overwrites the stored similarity.
pub proof fn lemma_store_pair_idempotent(
    m: StoreModel,
    parent: Seq<char>,
    child: Seq<char>,
    s1: int,
    s2: int,
)
    ensures
        spec_store_pair(spec_store_pair(m, parent, child, s1), parent, child, s2)
            == spec_store_pair(m, parent, child, s1),
{
    if parent != child && !spec_has_pair(m.pairs, parent, child) {
        let m1 = spec_store_pair(m, parent, child, s1);
        let i = m.pairs.len() as int;
        assert(0 <= i < m1.pairs.len() && m1.pairs[i].parent == parent && m1.pairs[i].child
            == child);
    }
}

/// Law: recording a canonical artist spelling twice leaves exactly the
/// store that the first recording produced; the first writer wins.
pub proof fn lemma_store_artist_idempotent(m: StoreModel, canon: Seq<char>)
    ensures
        spec_store_artist(spec_store_artist(m, canon), canon) == spec_store_artist(m, canon),
{
    if spec_find_artist(m.artists, lower_of(canon)) is None {
        let m1 = spec_store_artist(m, canon);
        lemma_find_artist_props(m.artists, lower_of(canon));
        lemma_find_artist_at(m1.artists, lower_of(canon), m.artists.len() as int);
    }
}

} // verus!
