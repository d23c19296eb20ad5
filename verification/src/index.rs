use vstd::prelude::*;
use vstd::arithmetic::mul::lemma_mul_upper_bound;
use crate::error::CoreError;
use crate::text::{
    Token, TokenModel, chars_eq, count_token, has_token, lemma_token_positions, spec_count_token,
    spec_has_token, spec_tokenize, spec_tokens, texts_of, tokenize, tokens_view,
};

verus! {

/// The closed set of entity kinds the index knows. An unsupported kind is a
/// construction-time error, never a silent no-match at query time.
#[derive(Debug, Clone, Copy, PartialEq, Eq, Structural, Hash)]
pub enum EntityType {
    Card,
    Board,
    Project,
    Tag,
    File,
}

/// One row of the search index: the denormalized, searchable form of one
/// entity. `(entity_type, entity_id)` is the primary key.
#[derive(Debug, Clone)]
pub struct IndexRecord {
    pub entity_type: EntityType,
    pub entity_id: String,
    pub title: String,
    pub content: String,
    pub tags: String,
    pub updated_at: i64,
}

#[verifier::ext_equal]
pub ghost struct RecordModel {
    pub etype: EntityType,
    pub id: Seq<char>,
    pub title: Seq<char>,
    pub content: Seq<char>,
    pub tags: Seq<char>,
    pub updated_at: int,
}

impl View for IndexRecord {
    type V = RecordModel;

    open spec fn view(&self) -> RecordModel {
        RecordModel {
            etype: self.entity_type,
            id: self.entity_id@,
            title: self.title@,
            content: self.content@,
            tags: self.tags@,
            updated_at: self.updated_at as int,
        }
    }
}

/// A record is well-formed when its key is not empty.
pub open spec fn valid_record(r: RecordModel) -> bool {
    r.id.len() > 0
}

pub open spec fn is_key(r: RecordModel, et: EntityType, id: Seq<char>) -> bool {
    r.etype == et && r.id == id
}

/// The position of the first record with the given key, or -1.
pub open spec fn find_key(s: Seq<RecordModel>, et: EntityType, id: Seq<char>) -> int
    decreases s.len(),
{
    if s.len() == 0 {
        -1
    } else if is_key(s[0], et, id) {
        0
    } else {
        let r = find_key(s.drop_first(), et, id);
        if r < 0 {
            -1
        } else {
            r + 1
        }
    }
}

/// No two records share a key.
pub open spec fn unique_keys(s: Seq<RecordModel>) -> bool {
    forall|i: int, j: int|
        0 <= i < j < s.len() ==> !is_key(#[trigger] s[i], (#[trigger] s[j]).etype, s[j].id)
}

/// Insert-or-replace, keyed by `(etype, id)`.
pub open spec fn spec_upsert(s: Seq<RecordModel>, r: RecordModel) -> Seq<RecordModel> {
    let i = find_key(s, r.etype, r.id);
    if i >= 0 {
        s.update(i, r)
    } else {
        s.push(r)
    }
}

/// Remove the record with the given key, if present.
pub open spec fn spec_remove(s: Seq<RecordModel>, et: EntityType, id: Seq<char>) -> Seq<
    RecordModel,
> {
    let i = find_key(s, et, id);
    if i >= 0 {
        s.remove(i)
    } else {
        s
    }
}

pub proof fn lemma_find_key_props(s: Seq<RecordModel>, et: EntityType, id: Seq<char>)
    ensures
        -1 <= find_key(s, et, id) < s.len(),
        find_key(s, et, id) >= 0 ==> is_key(s[find_key(s, et, id)], et, id),
        forall|j: int| 0 <= j < find_key(s, et, id) ==> !is_key(#[trigger] s[j], et, id),
        find_key(s, et, id) < 0 ==> forall|j: int|
            0 <= j < s.len() ==> !is_key(#[trigger] s[j], et, id),
    decreases s.len(),
{
    if s.len() > 0 && !is_key(s[0], et, id) {
        lemma_find_key_props(s.drop_first(), et, id);
        assert forall|j: int| 0 <= j < find_key(s, et, id) implies !is_key(
            #[trigger] s[j],
            et,
            id,
        ) by {
            if j > 0 {
                assert(s[j] == s.drop_first()[j - 1]);
            }
        }
        if find_key(s, et, id) < 0 {
            assert forall|j: int| 0 <= j < s.len() implies !is_key(#[trigger] s[j], et, id) by {
                if j > 0 {
                    assert(s[j] == s.drop_first()[j - 1]);
                }
            }
        }
    }
}

/// `find_key` returns exactly the position of the first match.
pub proof fn lemma_find_key_at(s: Seq<RecordModel>, et: EntityType, id: Seq<char>, i: int)
    requires
        0 <= i < s.len(),
        is_key(s[i], et, id),
        forall|j: int| 0 <= j < i ==> !is_key(#[trigger] s[j], et, id),
    ensures
        find_key(s, et, id) == i,
    decreases s.len(),
{
    if i > 0 {
        assert(forall|j: int|
            0 <= j < s.drop_first().len() ==> #[trigger] s.drop_first()[j] == s[j + 1]);
        lemma_find_key_at(s.drop_first(), et, id, i - 1);
    }
}

pub proof fn lemma_upsert_preserves_unique(s: Seq<RecordModel>, r: RecordModel)
    requires
        unique_keys(s),
    ensures
        unique_keys(spec_upsert(s, r)),
        forall|j: int|
            0 <= j < spec_upsert(s, r).len() ==> is_key(#[trigger] spec_upsert(s, r)[j], r.etype, r.id)
                == (spec_upsert(s, r)[j] == r),
{
    lemma_find_key_props(s, r.etype, r.id);
}

pub proof fn lemma_remove_preserves_unique(s: Seq<RecordModel>, et: EntityType, id: Seq<char>)
    requires
        unique_keys(s),
    ensures
        unique_keys(spec_remove(s, et, id)),
        forall|j: int|
            0 <= j < spec_remove(s, et, id).len() ==> !is_key(
                #[trigger] spec_remove(s, et, id)[j],
                et,
                id,
            ),
{
    lemma_find_key_props(s, et, id);
    let i = find_key(s, et, id);
    if i >= 0 {
        let s2 = s.remove(i);
        assert forall|j: int| 0 <= j < s2.len() implies !is_key(#[trigger] s2[j], et, id) by {
            if j < i {
                assert(s2[j] == s[j]);
                assert(!is_key(s[j], et, id));
            } else {
                assert(s2[j] == s[j + 1]);
                assert(is_key(s[i], et, id));
                assert(!is_key(s[j + 1], et, id));
            }
        }
        assert forall|x: int, y: int| 0 <= x < y < s2.len() implies !is_key(
            #[trigger] s2[x],
            (#[trigger] s2[y]).etype,
            s2[y].id,
        ) by {
            let x0 = if x < i { x } else { x + 1 };
            let y0 = if y < i { y } else { y + 1 };
            assert(s2[x] == s[x0]);
            assert(s2[y] == s[y0]);
        }
    }
}

/// Applying the same upsert twice yields the same sequence as applying it
/// once: the search index is idempotent under repeated writes.
pub proof fn lemma_upsert_idempotent(s: Seq<RecordModel>, r: RecordModel)
    ensures
        spec_upsert(spec_upsert(s, r), r) == spec_upsert(s, r),
{
    lemma_find_key_props(s, r.etype, r.id);
    let i = find_key(s, r.etype, r.id);
    if i >= 0 {
        let s1 = s.update(i, r);
        lemma_find_key_at(s1, r.etype, r.id, i);
        assert(spec_upsert(s1, r) =~= s1);
    } else {
        let s1 = s.push(r);
        assert(s1[s.len() as int] == r);
        lemma_find_key_at(s1, r.etype, r.id, s.len() as int);
        assert(spec_upsert(s1, r) =~= s1);
    }
}

/// The search index: a single consistent snapshot of derived records. All
/// reads observe one version; `rebuild` swaps in a fresh version whole.
pub struct SearchIndex {
    records: Vec<IndexRecord>,
}

impl SearchIndex {
    /// The mathematical content of the index: its records, in storage order.
    pub closed spec fn models(&self) -> Seq<RecordModel> {
        self.records@.map_values(|r: IndexRecord| r@)
    }

    /// Well-formed: keys are unique and every record is valid.
    pub open spec fn wf(&self) -> bool {
        &&& unique_keys(self.models())
        &&& forall|i: int| 0 <= i < self.models().len() ==> valid_record(#[trigger] self.models()[i])
    }

    pub fn new() -> (r: SearchIndex)
        ensures
            r.wf(),
            r.models() == Seq::<RecordModel>::empty(),
    {
        let r = SearchIndex { records: Vec::new() };
        proof {
            assert(r.models() =~= Seq::<RecordModel>::empty());
        }
        r
    }

    pub fn len(&self) -> (n: usize)
        ensures
            n == self.models().len(),
    {
        self.records.len()
    }

    /// Position of the record with the given key, if any.
    fn find(&self, entity_type: EntityType, entity_id: &String) -> (r: Option<usize>)
        ensures
            match r {
                Option::Some(i) => i == find_key(self.models(), entity_type, entity_id@),
                Option::None => find_key(self.models(), entity_type, entity_id@) < 0,
            },
    {
        let mut i: usize = 0;
        while i < self.records.len()
            invariant
                i <= self.records.len(),
                forall|j: int| 0 <= j < i ==> !is_key(#[trigger] self.models()[j], entity_type, entity_id@),
            decreases self.records.len() - i,
        {
            if self.records[i].entity_type == entity_type && self.records[i].entity_id
                == *entity_id {
                proof {
                    assert(is_key(self.models()[i as int], entity_type, entity_id@));
                    lemma_find_key_at(self.models(), entity_type, entity_id@, i as int);
                }
                return Some(i);
            }
            i = i + 1;
        }
        proof {
            lemma_find_key_props(self.models(), entity_type, entity_id@);
        }
        None
    }

    /// Insert or fully replace the record keyed by its `(entity_type,
    /// entity_id)`. Rejects an empty `entity_id` before touching the index:
    /// either the whole record is committed or nothing is.
    pub fn upsert(&mut self, record: IndexRecord) -> (r: Result<(), CoreError>)
        requires
            old(self).wf(),
        ensures
            final(self).wf(),
            valid_record(record@) ==> r is Ok && final(self).models() == spec_upsert(
                old(self).models(),
                record@,
            ),
            !valid_record(record@) ==> (r matches Err(CoreError::InvalidInput { .. }))
                && final(self).models() == old(self).models(),
    {
        if record.entity_id.as_str().unicode_len() == 0 {
            return Err(
                CoreError::InvalidInput { reason: String::from_str("empty entity_id") },
            );
        }
        proof {
            lemma_upsert_preserves_unique(self.models(), record@);
        }
        match self.find(record.entity_type, &record.entity_id) {
            Some(i) => {
                proof {
                    lemma_find_key_props(self.models(), record@.etype, record@.id);
                }
                self.records[i] = record;
                proof {
                    assert(self.models() =~= spec_upsert(old(self).models(), record@));
                }
            },
            None => {
                self.records.push(record);
                proof {
                    assert(self.models() =~= spec_upsert(old(self).models(), record@));
                }
            },
        }
        Ok(())
    }

    /// Delete the record with the given key if present; report whether
    /// anything was removed. Removing an absent key is not an error.
    pub fn remove(&mut self, entity_type: EntityType, entity_id: &String) -> (removed: bool)
        requires
            old(self).wf(),
        ensures
            final(self).wf(),
            removed == (find_key(old(self).models(), entity_type, entity_id@) >= 0),
            final(self).models() == spec_remove(old(self).models(), entity_type, entity_id@),
    {
        proof {
            lemma_remove_preserves_unique(self.models(), entity_type, entity_id@);
            lemma_find_key_props(self.models(), entity_type, entity_id@);
        }
        match self.find(entity_type, entity_id) {
            Some(i) => {
                self.records.remove(i);
                proof {
                    assert(self.models() =~= spec_remove(
                        old(self).models(),
                        entity_type,
                        entity_id@,
                    ));
                }
                true
            },
            None => {
                proof {
                    assert(self.models() =~= spec_remove(
                        old(self).models(),
                        entity_type,
                        entity_id@,
                    ));
                }
                false
            },
        }
    }
}

/// Weight of a title hit relative to a content or tags hit.
pub const TITLE_WEIGHT: u64 = 3;

/// Fixed-point scale of the inverse-document-frequency factor.
pub const IDF_SCALE: u64 = 100;

/// Term frequencies beyond this cap no longer raise the score.
pub const TF_CAP: u64 = 1048576;

/// Document counts beyond this cap no longer change the idf factor.
pub const DOC_CAP: u64 = 1048576;

/// Scores saturate here, so that a rank always fits an `i64`.
pub const SCORE_MAX: u64 = 0x7fff_ffff_ffff_ffff;

pub open spec fn cap_at(x: nat, c: nat) -> nat {
    if x > c {
        c
    } else {
        x
    }
}

/// Scaled inverse document frequency: rarer tokens weigh more. Both counts
/// are capped, and shifted by one so the quotient is defined and positive.
pub open spec fn spec_idf(n_docs: nat, df: nat) -> nat {
    (IDF_SCALE as nat * (1 + cap_at(n_docs, DOC_CAP as nat))) / (1 + cap_at(df, DOC_CAP as nat))
}

/// Whether the record holds the token in any searchable field.
pub open spec fn rec_has_token(rec: RecordModel, q: Seq<char>) -> bool {
    ||| spec_has_token(spec_tokenize(rec.title), q)
    ||| spec_has_token(spec_tokenize(rec.content), q)
    ||| spec_has_token(spec_tokenize(rec.tags), q)
}

/// Term frequency of one query token against one record, with title hits
/// weighted higher; each field's count is capped.
pub open spec fn spec_token_weight(rec: RecordModel, q: Seq<char>) -> nat {
    TITLE_WEIGHT as nat * cap_at(spec_count_token(spec_tokens(rec.title), q), TF_CAP as nat)
        + cap_at(spec_count_token(spec_tokens(rec.content), q), TF_CAP as nat) + cap_at(
        spec_count_token(spec_tokens(rec.tags), q),
        TF_CAP as nat,
    )
}

/// Saturating addition: scores never exceed `SCORE_MAX`.
pub open spec fn add_sat(a: nat, b: nat) -> nat {
    if a + b > SCORE_MAX as nat {
        SCORE_MAX as nat
    } else {
        a + b
    }
}

/// How many of the records hold the token: the document frequency.
pub open spec fn spec_doc_freq(s: Seq<RecordModel>, q: Seq<char>) -> nat
    decreases s.len(),
{
    if s.len() == 0 {
        0
    } else {
        spec_doc_freq(s.drop_last(), q) + if rec_has_token(s.last(), q) {
            1nat
        } else {
            0nat
        }
    }
}

/// The relevance score of a record for a tokenized query: the saturating sum,
/// over the query tokens, of term frequency times inverse document frequency.
/// `dfs` carries the document frequency of each query token.
pub open spec fn spec_score(rec: RecordModel, qs: Seq<Seq<char>>, n_docs: nat, dfs: Seq<nat>) -> nat
    decreases qs.len(),
{
    if qs.len() == 0 {
        0
    } else {
        add_sat(
            spec_score(rec, qs.drop_last(), n_docs, dfs.drop_last()),
            spec_token_weight(rec, qs.last()) * spec_idf(
                n_docs,
                if dfs.len() > 0 {
                    dfs.last()
                } else {
                    0
                },
            ),
        )
    }
}

pub proof fn lemma_score_bounds(rec: RecordModel, qs: Seq<Seq<char>>, n_docs: nat, dfs: Seq<nat>)
    ensures
        spec_score(rec, qs, n_docs, dfs) <= SCORE_MAX as nat,
    decreases qs.len(),
{
    if qs.len() > 0 {
        lemma_score_bounds(rec, qs.drop_last(), n_docs, dfs.drop_last());
    }
}

/// Whether the record matches the query: it holds every query token
/// (boolean-AND semantics).
pub open spec fn spec_matches(rec: RecordModel, qs: Seq<Seq<char>>) -> bool {
    forall|k: int| 0 <= k < qs.len() ==> rec_has_token(rec, qs[k])
}

/// Whether a token occurs in any searchable field of the record.
fn rec_has_token_exec(rec: &IndexRecord, q: &Vec<char>) -> (r: bool)
    ensures
        r == rec_has_token(rec@, q@),
{
    let t = tokenize(rec.title.as_str());
    if has_token(&t, q) {
        return true;
    }
    let c = tokenize(rec.content.as_str());
    if has_token(&c, q) {
        return true;
    }
    let g = tokenize(rec.tags.as_str());
    has_token(&g, q)
}

/// Whether the record holds every query token.
fn record_matches(rec: &IndexRecord, qs: &Vec<Token>) -> (r: bool)
    ensures
        r == spec_matches(rec@, texts_of(tokens_view(qs@))),
{
    let ghost qt = texts_of(tokens_view(qs@));
    let mut k: usize = 0;
    while k < qs.len()
        invariant
            k <= qs.len(),
            qt == texts_of(tokens_view(qs@)),
            qs@.len() == qt.len(),
            forall|j: int| 0 <= j < k ==> rec_has_token(rec@, #[trigger] qt[j]),
        decreases qs.len() - k,
    {
        let hit = rec_has_token_exec(rec, &qs[k].text);
        proof {
            assert(qt[k as int] == qs@[k as int]@.text);
        }
        if !hit {
            return false;
        }
        k = k + 1;
    }
    true
}

fn cap_count(x: usize, c: u64) -> (r: u64)
    ensures
        r as nat == cap_at(x as nat, c as nat),
        r <= c,
{
    if x as u64 > c {
        c
    } else {
        x as u64
    }
}

/// Term frequency of one query token against one record, title weighted.
fn token_weight(rec: &IndexRecord, q: &Vec<char>) -> (r: u64)
    ensures
        r as nat == spec_token_weight(rec@, q@),
        r <= 5 * TF_CAP,
{
    let t = tokenize(rec.title.as_str());
    let c = tokenize(rec.content.as_str());
    let g = tokenize(rec.tags.as_str());
    let tw = cap_count(count_token(&t, q), TF_CAP);
    let cw = cap_count(count_token(&c, q), TF_CAP);
    let gw = cap_count(count_token(&g, q), TF_CAP);
    TITLE_WEIGHT * tw + cw + gw
}

/// Document frequency of one token over the index records, capped.
fn doc_freq_exec(records: &Vec<IndexRecord>, q: &Vec<char>) -> (r: u64)
    ensures
        r as nat == cap_at(
            spec_doc_freq(records@.map_values(|x: IndexRecord| x@), q@),
            DOC_CAP as nat,
        ),
{
    let ghost s = records@.map_values(|x: IndexRecord| x@);
    let mut cnt: u64 = 0;
    let mut i: usize = 0;
    while i < records.len()
        invariant
            i <= records.len(),
            s == records@.map_values(|x: IndexRecord| x@),
            records@.len() == s.len(),
            cnt as nat == cap_at(spec_doc_freq(s.take(i as int), q@), DOC_CAP as nat),
        decreases records.len() - i,
    {
        let hit = rec_has_token_exec(&records[i], q);
        proof {
            assert(s[i as int] == records@[i as int]@);
            assert(s.take(i + 1 as int).drop_last() =~= s.take(i as int));
            assert(s.take(i + 1 as int).last() == s[i as int]);
        }
        if hit && cnt < DOC_CAP {
            cnt = cnt + 1;
        }
        i = i + 1;
    }
    proof {
        assert(s.take(s.len() as int) =~= s);
    }
    cnt
}

/// The relevance score of one record for the tokenized query.
fn score_record(rec: &IndexRecord, qs: &Vec<Token>, n_docs: u64, dfs: &Vec<u64>) -> (r: u64)
    requires
        qs@.len() == dfs@.len(),
    ensures
        r as nat == spec_score(
            rec@,
            texts_of(tokens_view(qs@)),
            n_docs as nat,
            dfs@.map_values(|d: u64| d as nat),
        ),
        r <= SCORE_MAX,
{
    let ghost qt = texts_of(tokens_view(qs@));
    let ghost dn = dfs@.map_values(|d: u64| d as nat);
    let mut score: u64 = 0;
    let mut k: usize = 0;
    while k < qs.len()
        invariant
            k <= qs.len(),
            qt == texts_of(tokens_view(qs@)),
            dn == dfs@.map_values(|d: u64| d as nat),
            qs@.len() == qt.len(),
            dfs@.len() == qt.len(),
            dn.len() == qt.len(),
            score as nat == spec_score(rec@, qt.take(k as int), n_docs as nat, dn.take(k as int)),
            score <= SCORE_MAX,
        decreases qs.len() - k,
    {
        let w = token_weight(rec, &qs[k].text);
        let denom: u64 = 1 + if dfs[k] > DOC_CAP {
            DOC_CAP
        } else {
            dfs[k]
        };
        let num: u64 = IDF_SCALE * (1 + if n_docs > DOC_CAP {
            DOC_CAP
        } else {
            n_docs
        });
        let idf: u64 = num / denom;
        proof {
            assert(idf as nat == spec_idf(n_docs as nat, dn[k as int]));
            assert(w as nat <= 5 * TF_CAP as nat);
            assert(idf <= IDF_SCALE * (1 + DOC_CAP)) by {
                assert(num <= IDF_SCALE * (1 + DOC_CAP));
            }
            lemma_mul_upper_bound(
                w as int,
                5 * TF_CAP as int,
                idf as int,
                (IDF_SCALE * (1 + DOC_CAP)) as int,
            );
        }
        let contribution: u64 = w * idf;
        let new_score: u64 = if score > SCORE_MAX - contribution {
            SCORE_MAX
        } else {
            score + contribution
        };
        proof {
            assert(qt[k as int] == qs@[k as int]@.text);
            assert(qt.take(k + 1 as int).drop_last() =~= qt.take(k as int));
            assert(dn.take(k + 1 as int).drop_last() =~= dn.take(k as int));
            assert(qt.take(k + 1 as int).last() == qt[k as int]);
            assert(dn.take(k + 1 as int).last() == dn[k as int]);
            assert(new_score as nat == add_sat(score as nat, (w * idf) as nat));
        }
        score = new_score;
        k = k + 1;
    }
    proof {
        assert(qt.take(qt.len() as int) =~= qt);
        assert(dn.take(dn.len() as int) =~= dn);
    }
    score
}

/// A matched record before results are assembled: its position in the index,
/// its rank (lower is more relevant) and its recency for tie-breaking.
#[derive(Clone, Copy)]
struct Scored {
    idx: usize,
    rank: i64,
    updated_at: i64,
}

#[verifier::ext_equal]
pub ghost struct ScoredModel {
    pub idx: int,
    pub rank: int,
    pub updated_at: int,
}

impl View for Scored {
    type V = ScoredModel;

    closed spec fn view(&self) -> ScoredModel {
        ScoredModel { idx: self.idx as int, rank: self.rank as int, updated_at: self.updated_at as int }
    }
}

spec fn scoreds_view(v: Seq<Scored>) -> Seq<ScoredModel> {
    v.map_values(|x: Scored| x@)
}

/// The result order: rank ascending, then recency descending, then index
/// position ascending. A total order, so the sorted sequence is unique and
/// queries are deterministic.
pub open spec fn scored_le(a: ScoredModel, b: ScoredModel) -> bool {
    ||| a.rank < b.rank
    ||| (a.rank == b.rank && a.updated_at > b.updated_at)
    ||| (a.rank == b.rank && a.updated_at == b.updated_at && a.idx <= b.idx)
}

pub open spec fn sorted_scored(s: Seq<ScoredModel>) -> bool {
    forall|i: int, j: int| 0 <= i < j < s.len() ==> scored_le(#[trigger] s[i], #[trigger] s[j])
}

pub open spec fn insert_sorted(x: ScoredModel, s: Seq<ScoredModel>) -> Seq<ScoredModel>
    decreases s.len(),
{
    if s.len() == 0 {
        seq![x]
    } else if scored_le(s[0], x) {
        seq![s[0]] + insert_sorted(x, s.drop_first())
    } else {
        seq![x] + s
    }
}

/// Insertion sort at the specification level: the unique stable ordering of
/// the matches under `scored_le`.
pub open spec fn sort_scored(s: Seq<ScoredModel>) -> Seq<ScoredModel>
    decreases s.len(),
{
    if s.len() == 0 {
        Seq::empty()
    } else {
        insert_sorted(s.last(), sort_scored(s.drop_last()))
    }
}

proof fn lemma_contains_concat<A>(a: Seq<A>, b: Seq<A>, y: A)
    ensures
        (a + b).contains(y) <==> (a.contains(y) || b.contains(y)),
{
    if (a + b).contains(y) {
        let i = choose|i: int| 0 <= i < (a + b).len() && (a + b)[i] == y;
        if i < a.len() {
            assert(a[i] == y);
        } else {
            assert(b[i - a.len()] == y);
        }
    }
    if a.contains(y) {
        let i = choose|i: int| 0 <= i < a.len() && a[i] == y;
        assert((a + b)[i] == y);
    }
    if b.contains(y) {
        let i = choose|i: int| 0 <= i < b.len() && b[i] == y;
        assert((a + b)[a.len() + i] == y);
    }
}

proof fn lemma_contains_drop_first<A>(s: Seq<A>, y: A)
    requires
        s.len() > 0,
    ensures
        s.contains(y) <==> (s[0] == y || s.drop_first().contains(y)),
{
    if s.contains(y) {
        let i = choose|i: int| 0 <= i < s.len() && s[i] == y;
        if i > 0 {
            assert(s.drop_first()[i - 1] == y);
        }
    }
    if s.drop_first().contains(y) {
        let i = choose|i: int| 0 <= i < s.drop_first().len() && s.drop_first()[i] == y;
        assert(s[i + 1] == y);
    }
}

proof fn lemma_contains_drop_last<A>(s: Seq<A>, y: A)
    requires
        s.len() > 0,
    ensures
        s.contains(y) <==> (s.last() == y || s.drop_last().contains(y)),
{
    if s.contains(y) {
        let i = choose|i: int| 0 <= i < s.len() && s[i] == y;
        if i < s.len() - 1 {
            assert(s.drop_last()[i] == y);
        }
    }
    if s.drop_last().contains(y) {
        let i = choose|i: int| 0 <= i < s.drop_last().len() && s.drop_last()[i] == y;
        assert(s[i] == y);
    }
}

pub proof fn lemma_insert_sorted(x: ScoredModel, s: Seq<ScoredModel>)
    requires
        sorted_scored(s),
    ensures
        sorted_scored(insert_sorted(x, s)),
        insert_sorted(x, s).len() == s.len() + 1,
        forall|y: ScoredModel| insert_sorted(x, s).contains(y) <==> (s.contains(y) || y == x),
    decreases s.len(),
{
    if s.len() == 0 {
        assert forall|y: ScoredModel| insert_sorted(x, s).contains(y) <==> (s.contains(y) || y
            == x) by {
            if insert_sorted(x, s).contains(y) {
                let i = choose|i: int|
                    0 <= i < insert_sorted(x, s).len() && insert_sorted(x, s)[i] == y;
                assert(y == x);
            }
            if y == x {
                assert(insert_sorted(x, s)[0] == y);
            }
        }
    } else if scored_le(s[0], x) {
        assert(sorted_scored(s.drop_first())) by {
            assert(forall|i: int, j: int|
                0 <= i < j < s.drop_first().len() ==> scored_le(
                    #[trigger] s.drop_first()[i],
                    #[trigger] s.drop_first()[j],
                ));
        }
        lemma_insert_sorted(x, s.drop_first());
        let rest = insert_sorted(x, s.drop_first());
        let r = seq![s[0]] + rest;
        assert forall|y: ScoredModel| r.contains(y) <==> (s.contains(y) || y == x) by {
            lemma_contains_concat(seq![s[0]], rest, y);
            lemma_contains_drop_first(s, y);
            if seq![s[0]].contains(y) {
                assert(y == s[0]);
            }
            if y == s[0] {
                assert(seq![s[0]][0] == y);
            }
        }
        assert forall|i: int, j: int| 0 <= i < j < r.len() implies scored_le(
            #[trigger] r[i],
            #[trigger] r[j],
        ) by {
            if i == 0 {
                assert(rest.contains(r[j])) by {
                    assert(rest[j - 1] == r[j]);
                }
                assert(s.drop_first().contains(r[j]) || r[j] == x);
                if s.drop_first().contains(r[j]) {
                    let k = choose|k: int|
                        0 <= k < s.drop_first().len() && s.drop_first()[k] == r[j];
                    assert(s[k + 1] == r[j]);
                    assert(scored_le(s[0], s[k + 1]));
                }
            } else {
                assert(rest[i - 1] == r[i]);
                assert(rest[j - 1] == r[j]);
            }
        }
    } else {
        let r = seq![x] + s;
        assert forall|y: ScoredModel| r.contains(y) <==> (s.contains(y) || y == x) by {
            lemma_contains_concat(seq![x], s, y);
            if seq![x].contains(y) {
                assert(y == x);
            }
            if y == x {
                assert(seq![x][0] == y);
            }
        }
        assert forall|i: int, j: int| 0 <= i < j < r.len() implies scored_le(
            #[trigger] r[i],
            #[trigger] r[j],
        ) by {
            if i == 0 {
                assert(scored_le(x, s[0]));
                if j > 1 {
                    assert(scored_le(s[0], s[j - 1]));
                }
                assert(r[j] == s[j - 1]);
            } else {
                assert(r[i] == s[i - 1]);
                assert(r[j] == s[j - 1]);
            }
        }
    }
}

pub proof fn lemma_sort_scored(s: Seq<ScoredModel>)
    ensures
        sorted_scored(sort_scored(s)),
        sort_scored(s).len() == s.len(),
        forall|y: ScoredModel| sort_scored(s).contains(y) <==> s.contains(y),
    decreases s.len(),
{
    if s.len() > 0 {
        lemma_sort_scored(s.drop_last());
        lemma_insert_sorted(s.last(), sort_scored(s.drop_last()));
        assert(sort_scored(s) == insert_sorted(s.last(), sort_scored(s.drop_last())));
        assert forall|y: ScoredModel| sort_scored(s).contains(y) <==> s.contains(y) by {
            lemma_contains_drop_last(s, y);
            assert(insert_sorted(s.last(), sort_scored(s.drop_last())).contains(y) <==> (
            sort_scored(s.drop_last()).contains(y) || y == s.last()));
        }
    }
}

proof fn lemma_insert_sorted_at(x: ScoredModel, s: Seq<ScoredModel>, pos: int)
    requires
        0 <= pos <= s.len(),
        forall|j: int| 0 <= j < pos ==> scored_le(#[trigger] s[j], x),
        pos < s.len() ==> !scored_le(s[pos], x),
    ensures
        insert_sorted(x, s) == s.take(pos) + seq![x] + s.skip(pos),
    decreases s.len(),
{
    if s.len() == 0 {
        assert(insert_sorted(x, s) =~= s.take(pos) + seq![x] + s.skip(pos));
    } else if pos == 0 {
        assert(insert_sorted(x, s) =~= seq![x] + s);
        assert(s.take(0) + seq![x] + s.skip(0) =~= seq![x] + s);
    } else {
        assert(scored_le(s[0], x));
        lemma_insert_sorted_at(x, s.drop_first(), pos - 1);
        assert(s.drop_first().take(pos - 1) =~= s.take(pos).drop_first());
        assert(s.drop_first().skip(pos - 1) =~= s.skip(pos));
        assert(seq![s[0]] + (s.drop_first().take(pos - 1) + seq![x] + s.drop_first().skip(pos - 1))
            =~= s.take(pos) + seq![x] + s.skip(pos));
    }
}

fn scored_le_exec(a: &Scored, b: &Scored) -> (r: bool)
    ensures
        r == scored_le(a@, b@),
{
    a.rank < b.rank || (a.rank == b.rank && a.updated_at > b.updated_at) || (a.rank == b.rank
        && a.updated_at == b.updated_at && a.idx <= b.idx)
}

fn insert_scored(v: &mut Vec<Scored>, x: Scored)
    ensures
        scoreds_view(final(v)@) == insert_sorted(x@, scoreds_view(old(v)@)),
{
    let ghost s = scoreds_view(v@);
    let mut pos: usize = 0;
    while pos < v.len()
        invariant
            pos <= v.len(),
            s == scoreds_view(v@),
            v@.len() == s.len(),
            forall|j: int| 0 <= j < pos ==> scored_le(#[trigger] s[j], x@),
        ensures
            pos <= v.len(),
            s == scoreds_view(v@),
            v@.len() == s.len(),
            forall|j: int| 0 <= j < pos ==> scored_le(#[trigger] s[j], x@),
            pos < v.len() ==> !scored_le(s[pos as int], x@),
        decreases v.len() - pos,
    {
        let cont = scored_le_exec(&v[pos], &x);
        proof {
            assert(s[pos as int] == v@[pos as int]@);
        }
        if !cont {
            break;
        }
        pos = pos + 1;
    }
    proof {
        lemma_insert_sorted_at(x@, s, pos as int);
    }
    v.insert(pos, x);
    proof {
        assert(scoreds_view(v@) =~= s.take(pos as int) + seq![x@] + s.skip(pos as int));
    }
}

fn sort_scored_exec(v: Vec<Scored>) -> (r: Vec<Scored>)
    ensures
        scoreds_view(r@) == sort_scored(scoreds_view(v@)),
{
    let ghost s = scoreds_view(v@);
    let mut out: Vec<Scored> = Vec::new();
    let mut i: usize = 0;
    proof {
        assert(scoreds_view(out@) =~= sort_scored(s.take(0)));
    }
    while i < v.len()
        invariant
            i <= v.len(),
            s == scoreds_view(v@),
            v@.len() == s.len(),
            scoreds_view(out@) == sort_scored(s.take(i as int)),
        decreases v.len() - i,
    {
        insert_scored(&mut out, v[i]);
        proof {
            assert(s.take(i + 1 as int).drop_last() =~= s.take(i as int));
            assert(s.take(i + 1 as int).last() == s[i as int]);
            assert(s[i as int] == v@[i as int]@);
        }
        i = i + 1;
    }
    proof {
        assert(s.take(s.len() as int) =~= s);
    }
    out
}

/// A snippet window holds at most this many tokens.
pub const SNIPPET_TOKENS: usize = 20;

/// One past the last token of the window starting at `j`.
pub open spec fn window_end(toks_len: int, j: int) -> int {
    if j + SNIPPET_TOKENS as int > toks_len {
        toks_len
    } else {
        j + SNIPPET_TOKENS as int
    }
}

/// How many tokens in `[j, e)` are query tokens.
pub open spec fn spec_window_hits(
    toks: Seq<TokenModel>,
    qs: Seq<Seq<char>>,
    j: int,
    e: int,
) -> nat
    decreases e - j,
{
    if j < 0 || j >= e {
        0
    } else {
        (if qs.contains(toks[j].text) {
            1nat
        } else {
            0nat
        }) + spec_window_hits(toks, qs, j + 1, e)
    }
}

pub open spec fn spec_hits(toks: Seq<TokenModel>, qs: Seq<Seq<char>>, j: int) -> nat {
    spec_window_hits(toks, qs, j, window_end(toks.len() as int, j))
}

/// The earliest window start in `[0, upto)` with the most query-token hits.
pub open spec fn spec_best_window(toks: Seq<TokenModel>, qs: Seq<Seq<char>>, upto: int) -> int
    decreases upto,
{
    if upto <= 1 {
        0
    } else {
        let b = spec_best_window(toks, qs, upto - 1);
        if spec_hits(toks, qs, upto - 1) > spec_hits(toks, qs, b) {
            upto - 1
        } else {
            b
        }
    }
}

pub proof fn lemma_best_window_in_range(toks: Seq<TokenModel>, qs: Seq<Seq<char>>, upto: int)
    requires
        upto >= 1,
    ensures
        0 <= spec_best_window(toks, qs, upto) < upto,
    decreases upto,
{
    if upto > 1 {
        lemma_best_window_in_range(toks, qs, upto - 1);
    }
}

/// The window `[lo, j)` of the content, stitched back together: the original
/// text of each token, the original separators between tokens, and match
/// markers around tokens that are query tokens.
pub open spec fn spec_stitch(
    content: Seq<char>,
    toks: Seq<TokenModel>,
    qs: Seq<Seq<char>>,
    lo: int,
    j: int,
) -> Seq<char>
    decreases j - lo,
{
    if j <= lo {
        Seq::empty()
    } else {
        let prev = spec_stitch(content, toks, qs, lo, j - 1);
        let sep = if j - 1 == lo {
            Seq::<char>::empty()
        } else {
            content.subrange(toks[j - 2].end, toks[j - 1].start)
        };
        let body = content.subrange(toks[j - 1].start, toks[j - 1].end);
        let marked = if qs.contains(toks[j - 1].text) {
            "<b>"@ + body + "</b>"@
        } else {
            body
        };
        prev + sep + marked
    }
}

/// The snippet of a content text for a tokenized query: the window of at most
/// `SNIPPET_TOKENS` tokens with the most query hits (earliest such window),
/// quoted from the original text with match markers, with an ellipsis at each
/// boundary where the window cuts the content off.
pub open spec fn spec_snippet(content: Seq<char>, qs: Seq<Seq<char>>) -> Seq<char> {
    let toks = spec_tokenize(content);
    if toks.len() == 0 {
        Seq::empty()
    } else {
        let lo = spec_best_window(toks, qs, toks.len() as int);
        let hi = window_end(toks.len() as int, lo);
        let lead = if lo > 0 {
            "..."@
        } else {
            Seq::<char>::empty()
        };
        let trail = if hi < toks.len() {
            "..."@
        } else {
            Seq::<char>::empty()
        };
        lead + spec_stitch(content, toks, qs, lo, hi) + trail
    }
}

/// Whether the text `t` is one of the query tokens.
fn text_in(qs: &Vec<Token>, t: &Vec<char>) -> (r: bool)
    ensures
        r == texts_of(tokens_view(qs@)).contains(t@),
{
    let ghost qt = texts_of(tokens_view(qs@));
    let mut k: usize = 0;
    while k < qs.len()
        invariant
            k <= qs.len(),
            qt == texts_of(tokens_view(qs@)),
            qs@.len() == qt.len(),
            forall|j: int| 0 <= j < k ==> qt[j] != t@,
        decreases qs.len() - k,
    {
        let hit = chars_eq(&qs[k].text, t);
        proof {
            assert(qt[k as int] == qs@[k as int]@.text);
        }
        if hit {
            proof {
                assert(qt.contains(t@)) by {
                    assert(qt[k as int] == t@);
                }
            }
            return true;
        }
        k = k + 1;
    }
    proof {
        if qt.contains(t@) {
            let j = choose|j: int| 0 <= j < qt.len() && qt[j] == t@;
            assert(false);
        }
    }
    false
}

/// Query-token hits in the window starting at `j`.
fn window_hits(toks: &Vec<Token>, qs: &Vec<Token>, j: usize) -> (h: usize)
    requires
        j < toks@.len(),
    ensures
        h == spec_hits(tokens_view(toks@), texts_of(tokens_view(qs@)), j as int),
{
    let ghost tv = tokens_view(toks@);
    let ghost qt = texts_of(tokens_view(qs@));
    let e: usize = if toks.len() - j > SNIPPET_TOKENS {
        j + SNIPPET_TOKENS
    } else {
        toks.len()
    };
    proof {
        assert(e as int == window_end(tv.len() as int, j as int));
    }
    let mut h: usize = 0;
    let mut k: usize = j;
    while k < e
        invariant
            j <= k <= e <= toks@.len(),
            h <= k - j,
            tv == tokens_view(toks@),
            qt == texts_of(tokens_view(qs@)),
            toks@.len() == tv.len(),
            spec_window_hits(tv, qt, j as int, e as int) == h + spec_window_hits(
                tv,
                qt,
                k as int,
                e as int,
            ),
        decreases e - k,
    {
        let hit = text_in(qs, &toks[k].text);
        proof {
            assert(tv[k as int] == toks@[k as int]@);
        }
        if hit {
            h = h + 1;
        }
        k = k + 1;
    }
    h
}

/// The earliest window start with the most query hits.
fn best_window(toks: &Vec<Token>, qs: &Vec<Token>) -> (r: usize)
    requires
        toks@.len() > 0,
    ensures
        r as int == spec_best_window(
            tokens_view(toks@),
            texts_of(tokens_view(qs@)),
            toks@.len() as int,
        ),
        r < toks@.len(),
{
    let ghost tv = tokens_view(toks@);
    let ghost qt = texts_of(tokens_view(qs@));
    let mut best: usize = 0;
    let mut best_hits: usize = window_hits(toks, qs, 0);
    let mut j: usize = 1;
    while j < toks.len()
        invariant
            1 <= j <= toks@.len(),
            best < j,
            tv == tokens_view(toks@),
            qt == texts_of(tokens_view(qs@)),
            toks@.len() == tv.len(),
            best as int == spec_best_window(tv, qt, j as int),
            best_hits == spec_hits(tv, qt, best as int),
        decreases toks@.len() - j,
    {
        let h = window_hits(toks, qs, j);
        if h > best_hits {
            best = j;
            best_hits = h;
        }
        j = j + 1;
    }
    best
}

/// Build the snippet of a content text for a tokenized query.
fn snippet(content: &str, qs: &Vec<Token>) -> (r: String)
    ensures
        r@ == spec_snippet(content@, texts_of(tokens_view(qs@))),
{
    let ghost qt = texts_of(tokens_view(qs@));
    let toks = tokenize(content);
    let ghost tv = tokens_view(toks@);
    proof {
        lemma_token_positions(content@);
    }
    if toks.len() == 0 {
        return String::new();
    }
    let lo = best_window(&toks, qs);
    let hi: usize = if toks.len() - lo > SNIPPET_TOKENS {
        lo + SNIPPET_TOKENS
    } else {
        toks.len()
    };
    proof {
        assert(hi as int == window_end(tv.len() as int, lo as int));
    }
    let mut out = String::new();
    if lo > 0 {
        out.append("...");
    }
    let ghost lead = if lo > 0 {
        "..."@
    } else {
        Seq::<char>::empty()
    };
    let mut j: usize = lo;
    proof {
        assert(out@ =~= lead + spec_stitch(content@, tv, qt, lo as int, j as int));
    }
    while j < hi
        invariant
            lo <= j <= hi <= toks@.len(),
            lo < toks@.len(),
            tv == tokens_view(toks@),
            qt == texts_of(tokens_view(qs@)),
            toks@.len() == tv.len(),
            tv == spec_tokenize(content@),
            out@ == lead + spec_stitch(content@, tv, qt, lo as int, j as int),
            forall|k: int|
                0 <= k < tv.len() ==> {
                    &&& 0 <= (#[trigger] tv[k]).start
                    &&& tv[k].start < tv[k].end
                    &&& tv[k].end <= content@.len()
                },
            forall|x: int, y: int| 0 <= x < y < tv.len() ==> #[trigger] tv[x].end <= #[trigger] tv[y].start,
        decreases hi - j,
    {
        proof {
            assert(tv[j as int] == toks@[j as int]@);
            if j > lo {
                assert(tv[j - 1 as int] == toks@[j - 1 as int]@);
            }
        }
        if j > lo {
            let sep = content.substring_char(toks[j - 1].end, toks[j].start);
            out.append(sep);
        }
        let matched = text_in(qs, &toks[j].text);
        if matched {
            out.append("<b>");
        }
        let body = content.substring_char(toks[j].start, toks[j].end);
        out.append(body);
        if matched {
            out.append("</b>");
        }
        j = j + 1;
        proof {
            assert(out@ =~= lead + spec_stitch(content@, tv, qt, lo as int, j as int));
        }
    }
    if hi < toks.len() {
        out.append("...");
    }
    proof {
        assert(out@ =~= spec_snippet(content@, qt));
    }
    out
}

/// One query hit, constructed fresh per query and never persisted. The rank
/// follows the convention that a lower value is more relevant.
#[derive(Debug, Clone)]
pub struct SearchResult {
    pub entity_type: EntityType,
    pub entity_id: String,
    pub title: String,
    pub snippet: String,
    pub rank: i64,
}

#[verifier::ext_equal]
pub ghost struct ResultModel {
    pub etype: EntityType,
    pub id: Seq<char>,
    pub title: Seq<char>,
    pub snippet: Seq<char>,
    pub rank: int,
}

impl View for SearchResult {
    type V = ResultModel;

    open spec fn view(&self) -> ResultModel {
        ResultModel {
            etype: self.entity_type,
            id: self.entity_id@,
            title: self.title@,
            snippet: self.snippet@,
            rank: self.rank as int,
        }
    }
}

pub open spec fn results_view(v: Seq<SearchResult>) -> Seq<ResultModel> {
    v.map_values(|x: SearchResult| x@)
}

/// Both date bounds are inclusive; an absent bound does not constrain.
pub open spec fn in_date_range(ts: int, from: Option<i64>, to: Option<i64>) -> bool {
    &&& match from {
        Option::Some(f) => f as int <= ts,
        Option::None => true,
    }
    &&& match to {
        Option::Some(t) => ts <= t as int,
        Option::None => true,
    }
}

/// The non-textual query filters: entity types (an empty filter admits all)
/// and the inclusive date range on `updated_at`.
pub open spec fn passes_filter(
    rec: RecordModel,
    types: Seq<EntityType>,
    from: Option<i64>,
    to: Option<i64>,
) -> bool {
    (types.len() == 0 || types.contains(rec.etype)) && in_date_range(rec.updated_at, from, to)
}

/// The document frequency of each query token over the index.
pub open spec fn spec_dfs(s: Seq<RecordModel>, qs: Seq<Seq<char>>) -> Seq<nat> {
    qs.map_values(|q: Seq<char>| spec_doc_freq(s, q))
}

/// The rank of a record for a query over index state `s`: the negated
/// relevance score, so that lower means more relevant.
pub open spec fn spec_rank(s: Seq<RecordModel>, rec: RecordModel, qs: Seq<Seq<char>>) -> int {
    -(spec_score(rec, qs, s.len() as nat, spec_dfs(s, qs)) as int)
}

/// The matches among the first `i` records, in index order, with their ranks.
pub open spec fn spec_matched(
    s: Seq<RecordModel>,
    qs: Seq<Seq<char>>,
    types: Seq<EntityType>,
    from: Option<i64>,
    to: Option<i64>,
    i: int,
) -> Seq<ScoredModel>
    decreases i,
{
    if i <= 0 {
        Seq::empty()
    } else {
        let rest = spec_matched(s, qs, types, from, to, i - 1);
        let rec = s[i - 1];
        if passes_filter(rec, types, from, to) && spec_matches(rec, qs) {
            rest.push(
                ScoredModel { idx: i - 1, rank: spec_rank(s, rec, qs), updated_at: rec.updated_at },
            )
        } else {
            rest
        }
    }
}

/// The result row assembled for one match.
pub open spec fn spec_result_of(
    s: Seq<RecordModel>,
    qs: Seq<Seq<char>>,
    sm: ScoredModel,
) -> ResultModel {
    let rec = s[sm.idx];
    ResultModel {
        etype: rec.etype,
        id: rec.id,
        title: rec.title,
        snippet: spec_snippet(rec.content, qs),
        rank: sm.rank,
    }
}

/// The result rows for a sequence of matches, in order.
pub open spec fn spec_results_of(
    s: Seq<RecordModel>,
    qs: Seq<Seq<char>>,
    ms: Seq<ScoredModel>,
) -> Seq<ResultModel>
    decreases ms.len(),
{
    if ms.len() == 0 {
        Seq::empty()
    } else {
        spec_results_of(s, qs, ms.drop_last()).push(spec_result_of(s, qs, ms.last()))
    }
}

/// The whole query, as a function of the index state and the parameters: the
/// records that hold all query tokens and pass the filters, ranked by
/// relevance with recency as tie-break, capped at `limit` when one is given.
pub open spec fn spec_query(
    s: Seq<RecordModel>,
    text: Seq<char>,
    types: Seq<EntityType>,
    from: Option<i64>,
    to: Option<i64>,
    limit: Option<usize>,
) -> Seq<ResultModel> {
    let qs = spec_tokens(text);
    let sorted = sort_scored(spec_matched(s, qs, types, from, to, s.len() as int));
    let cut = match limit {
        Option::Some(l) => if (l as int) < sorted.len() {
            sorted.take(l as int)
        } else {
            sorted
        },
        Option::None => sorted,
    };
    spec_results_of(s, qs, cut)
}

/// Scores ignore everything in the counts above the caps, so exec code may
/// pass capped counts.
proof fn lemma_score_caps(
    rec: RecordModel,
    qs: Seq<Seq<char>>,
    n1: nat,
    n2: nat,
    d1: Seq<nat>,
    d2: Seq<nat>,
)
    requires
        d1.len() == qs.len(),
        d2.len() == qs.len(),
        cap_at(n1, DOC_CAP as nat) == cap_at(n2, DOC_CAP as nat),
        forall|k: int|
            0 <= k < qs.len() ==> cap_at(#[trigger] d1[k], DOC_CAP as nat) == cap_at(
                d2[k],
                DOC_CAP as nat,
            ),
    ensures
        spec_score(rec, qs, n1, d1) == spec_score(rec, qs, n2, d2),
    decreases qs.len(),
{
    if qs.len() > 0 {
        lemma_score_caps(rec, qs.drop_last(), n1, n2, d1.drop_last(), d2.drop_last());
        assert(d1.last() == d1[qs.len() - 1]);
        assert(d2.last() == d2[qs.len() - 1]);
        assert(spec_idf(n1, d1.last()) == spec_idf(n2, d2.last()));
    }
}

/// Everything `spec_matched` collects, characterized element by element: each
/// entry is a distinct matching record, and every matching record has an
/// entry.
pub proof fn lemma_matched_props(
    s: Seq<RecordModel>,
    qs: Seq<Seq<char>>,
    types: Seq<EntityType>,
    from: Option<i64>,
    to: Option<i64>,
    i: int,
)
    requires
        0 <= i <= s.len(),
    ensures
        forall|j: int|
            0 <= j < spec_matched(s, qs, types, from, to, i).len() ==> {
                let m = #[trigger] spec_matched(s, qs, types, from, to, i)[j];
                &&& 0 <= m.idx < i
                &&& passes_filter(s[m.idx], types, from, to)
                &&& spec_matches(s[m.idx], qs)
                &&& m.rank == spec_rank(s, s[m.idx], qs)
                &&& m.updated_at == s[m.idx].updated_at
            },
        forall|x: int|
            0 <= x < i && passes_filter(#[trigger] s[x], types, from, to) && spec_matches(s[x], qs)
                ==> spec_matched(s, qs, types, from, to, i).contains(
                ScoredModel { idx: x, rank: spec_rank(s, s[x], qs), updated_at: s[x].updated_at },
            ),
    decreases i,
{
    if i > 0 {
        lemma_matched_props(s, qs, types, from, to, i - 1);
        let rest = spec_matched(s, qs, types, from, to, i - 1);
        let cur = spec_matched(s, qs, types, from, to, i);
        assert forall|x: int|
            0 <= x < i && passes_filter(#[trigger] s[x], types, from, to) && spec_matches(
                s[x],
                qs,
            ) implies cur.contains(
            ScoredModel { idx: x, rank: spec_rank(s, s[x], qs), updated_at: s[x].updated_at },
        ) by {
            let m = ScoredModel { idx: x, rank: spec_rank(s, s[x], qs), updated_at: s[x].updated_at };
            if x < i - 1 {
                assert(rest.contains(m));
                let j = choose|j: int| 0 <= j < rest.len() && rest[j] == m;
                assert(cur[j] == m);
            } else {
                assert(cur[cur.len() - 1] == m);
            }
        }
    }
}

/// Whether `et` is one of the requested types.
fn type_in(types: &Vec<EntityType>, et: EntityType) -> (r: bool)
    ensures
        r == types@.contains(et),
{
    let mut k: usize = 0;
    while k < types.len()
        invariant
            k <= types.len(),
            forall|j: int| 0 <= j < k ==> types@[j] != et,
        decreases types.len() - k,
    {
        if types[k] == et {
            proof {
                assert(types@[k as int] == et);
            }
            return true;
        }
        k = k + 1;
    }
    proof {
        if types@.contains(et) {
            let j = choose|j: int| 0 <= j < types@.len() && types@[j] == et;
            assert(false);
        }
    }
    false
}

impl SearchIndex {
    /// Match `text` against title, content and tags of every record
    /// (boolean-AND over case-folded tokens), filter by entity types (an
    /// empty list admits all) and by the inclusive date range on
    /// `updated_at`, rank by relevance (lower rank first, recency breaking
    /// ties) and cap the number of results at `limit` when one is given.
    /// Each call is independent and the result is a function of the index
    /// state and the parameters alone.
    #[verifier::rlimit(50)]
    pub fn query(
        &self,
        text: &str,
        types: &Vec<EntityType>,
        date_from: Option<i64>,
        date_to: Option<i64>,
        limit: Option<usize>,
    ) -> (out: Vec<SearchResult>)
        ensures
            results_view(out@) == spec_query(
                self.models(),
                text@,
                types@,
                date_from,
                date_to,
                limit,
            ),
    {
        let ghost s = self.models();
        let q_toks = tokenize(text);
        let ghost qt = texts_of(tokens_view(q_toks@));
        proof {
            assert(qt == spec_tokens(text@));
        }
        // Document frequency of each query token, capped.
        let mut dfs: Vec<u64> = Vec::new();
        let mut k: usize = 0;
        while k < q_toks.len()
            invariant
                k <= q_toks@.len(),
                s == self.models(),
                qt == texts_of(tokens_view(q_toks@)),
                q_toks@.len() == qt.len(),
                dfs@.len() == k,
                forall|j: int|
                    0 <= j < k ==> (#[trigger] dfs@[j]) as nat == cap_at(
                        spec_doc_freq(s, qt[j]),
                        DOC_CAP as nat,
                    ),
            decreases q_toks@.len() - k,
        {
            let d = doc_freq_exec(&self.records, &q_toks[k].text);
            proof {
                assert(qt[k as int] == q_toks@[k as int]@.text);
            }
            dfs.push(d);
            k = k + 1;
        }
        let n_docs: u64 = if self.records.len() as u64 > DOC_CAP {
            DOC_CAP
        } else {
            self.records.len() as u64
        };
        // Collect the matches in index order.
        let mut matched: Vec<Scored> = Vec::new();
        let mut i: usize = 0;
        proof {
            assert(scoreds_view(matched@) =~= spec_matched(
                s,
                qt,
                types@,
                date_from,
                date_to,
                0,
            ));
        }
        while i < self.records.len()
            invariant
                i <= self.records@.len(),
                s == self.models(),
                s.len() == self.records@.len(),
                qt == texts_of(tokens_view(q_toks@)),
                q_toks@.len() == qt.len(),
                dfs@.len() == qt.len(),
                forall|j: int|
                    0 <= j < qt.len() ==> (#[trigger] dfs@[j]) as nat == cap_at(
                        spec_doc_freq(s, qt[j]),
                        DOC_CAP as nat,
                    ),
                n_docs as nat == cap_at(s.len(), DOC_CAP as nat),
                scoreds_view(matched@) == spec_matched(s, qt, types@, date_from, date_to, i as int),
            decreases self.records@.len() - i,
        {
            let rec = &self.records[i];
            proof {
                assert(rec@ == s[i as int]);
            }
            let type_ok = types.len() == 0 || type_in(types, rec.entity_type);
            let date_ok = (match date_from {
                Option::Some(f) => f <= rec.updated_at,
                Option::None => true,
            }) && (match date_to {
                Option::Some(t) => rec.updated_at <= t,
                Option::None => true,
            });
            if type_ok && date_ok && record_matches(rec, &q_toks) {
                let score = score_record(rec, &q_toks, n_docs, &dfs);
                proof {
                    lemma_score_caps(
                        rec@,
                        qt,
                        n_docs as nat,
                        s.len(),
                        dfs@.map_values(|d: u64| d as nat),
                        spec_dfs(s, qt),
                    );
                    lemma_score_bounds(rec@, qt, s.len(), spec_dfs(s, qt));
                }
                let rank: i64 = -(score as i64);
                matched.push(Scored { idx: i, rank, updated_at: rec.updated_at });
                proof {
                    assert(scoreds_view(matched@) =~= spec_matched(
                        s,
                        qt,
                        types@,
                        date_from,
                        date_to,
                        i + 1 as int,
                    ));
                }
            } else {
                proof {
                    assert(scoreds_view(matched@) =~= spec_matched(
                        s,
                        qt,
                        types@,
                        date_from,
                        date_to,
                        i + 1 as int,
                    ));
                }
            }
            i = i + 1;
        }
        proof {
            lemma_matched_props(s, qt, types@, date_from, date_to, s.len() as int);
            lemma_sort_scored(scoreds_view(matched@));
        }
        // Order by rank, then recency, then index position.
        let mut sorted = sort_scored_exec(matched);
        let ghost sorted_full = sort_scored(
            spec_matched(s, qt, types@, date_from, date_to, s.len() as int),
        );
        // Cap the result count.
        match limit {
            Option::Some(l) => {
                if l < sorted.len() {
                    sorted.truncate(l);
                    proof {
                        assert(scoreds_view(sorted@) =~= sorted_full.take(l as int));
                    }
                }
            },
            Option::None => {},
        }
        let ghost cut = match limit {
            Option::Some(l) => if (l as int) < sorted_full.len() {
                sorted_full.take(l as int)
            } else {
                sorted_full
            },
            Option::None => sorted_full,
        };
        proof {
            assert(scoreds_view(sorted@) == cut);
            let m_all = spec_matched(s, qt, types@, date_from, date_to, s.len() as int);
            assert forall|j: int| 0 <= j < cut.len() implies 0 <= (#[trigger] cut[j]).idx
                < s.len() by {
                assert(cut[j] == sorted_full[j]);
                assert(sorted_full.contains(cut[j])) by {
                    assert(sorted_full[j] == cut[j]);
                }
                assert(m_all.contains(cut[j]));
                let x = choose|x: int| 0 <= x < m_all.len() && m_all[x] == cut[j];
                assert(m_all[x] == cut[j]);
            }
        }
        // Assemble the result rows.
        let mut out: Vec<SearchResult> = Vec::new();
        let mut k2: usize = 0;
        proof {
            assert(results_view(out@) =~= spec_results_of(s, qt, cut.take(0)));
        }
        while k2 < sorted.len()
            invariant
                k2 <= sorted@.len(),
                out@.len() == k2,
                s == self.models(),
                s.len() == self.records@.len(),
                qt == texts_of(tokens_view(q_toks@)),
                scoreds_view(sorted@) == cut,
                sorted@.len() == cut.len(),
                forall|j: int| 0 <= j < cut.len() ==> 0 <= (#[trigger] cut[j]).idx < s.len(),
                results_view(out@) == spec_results_of(s, qt, cut.take(k2 as int)),
            decreases sorted@.len() - k2,
        {
            proof {
                assert(sorted@[k2 as int]@ == cut[k2 as int]);
            }
            let idx = sorted[k2].idx;
            let rec = &self.records[idx];
            proof {
                assert(rec@ == s[cut[k2 as int].idx]);
            }
            let snip = snippet(rec.content.as_str(), &q_toks);
            out.push(
                SearchResult {
                    entity_type: rec.entity_type,
                    entity_id: rec.entity_id.clone(),
                    title: rec.title.clone(),
                    snippet: snip,
                    rank: sorted[k2].rank,
                },
            );
            k2 = k2 + 1;
            proof {
                assert(cut.take(k2 as int).drop_last() =~= cut.take(k2 - 1 as int));
                assert(cut.take(k2 as int).last() == cut[k2 - 1 as int]);
                assert(out@[k2 - 1 as int]@ =~~= spec_result_of(s, qt, cut[k2 - 1 as int]));
                assert(results_view(out@) =~~= spec_results_of(s, qt, cut.take(k2 as int)));
            }
        }
        proof {
            assert(cut.take(cut.len() as int) =~= cut);
            assert(results_view(out@) =~~= spec_query(s, text@, types@, date_from, date_to, limit));
        }
        out
    }
}

/// The state a rebuild produces from the first `i` source records: the valid
/// records upserted left to right into an empty index. It does not depend on
/// any prior index content.
pub open spec fn spec_rebuild(rs: Seq<RecordModel>, i: int) -> Seq<RecordModel>
    decreases i,
{
    if i <= 0 {
        Seq::empty()
    } else {
        let prev = spec_rebuild(rs, i - 1);
        if valid_record(rs[i - 1]) {
            spec_upsert(prev, rs[i - 1])
        } else {
            prev
        }
    }
}

/// Whether some record in `s` carries the key.
pub open spec fn has_key(s: Seq<RecordModel>, et: EntityType, id: Seq<char>) -> bool {
    exists|x: int| 0 <= x < s.len() && is_key(#[trigger] s[x], et, id)
}

pub proof fn lemma_upsert_has_key(s: Seq<RecordModel>, r: RecordModel, et: EntityType, id: Seq<char>)
    ensures
        has_key(spec_upsert(s, r), et, id) <==> (has_key(s, et, id) || is_key(r, et, id)),
{
    lemma_find_key_props(s, r.etype, r.id);
    let i = find_key(s, r.etype, r.id);
    let s2 = spec_upsert(s, r);
    if has_key(s2, et, id) {
        let x = choose|x: int| 0 <= x < s2.len() && is_key(s2[x], et, id);
        if i >= 0 {
            if x == i {
                assert(is_key(r, et, id));
            } else {
                assert(s2[x] == s[x]);
            }
        } else {
            if x == s.len() {
                assert(is_key(r, et, id));
            } else {
                assert(s2[x] == s[x]);
            }
        }
    }
    if has_key(s, et, id) {
        let x = choose|x: int| 0 <= x < s.len() && is_key(#[trigger] s[x], et, id);
        if i >= 0 {
            if x == i {
                // the replaced record and `r` share a key, so `r` carries it too
                assert(is_key(s[i], r.etype, r.id));
                assert(is_key(s2[i], et, id));
            } else {
                assert(is_key(s2[x], et, id));
            }
        } else {
            assert(is_key(s2[x], et, id));
        }
    }
    if is_key(r, et, id) {
        if i >= 0 {
            assert(is_key(s2[i], et, id));
        } else {
            assert(is_key(s2[s.len() as int], et, id));
        }
    }
}

/// What a rebuild holds: unique keys, only valid source records, and exactly
/// the keys of the valid source records — whatever the index held before.
pub proof fn lemma_rebuild_props(rs: Seq<RecordModel>, i: int, et: EntityType, id: Seq<char>)
    requires
        0 <= i <= rs.len(),
    ensures
        unique_keys(spec_rebuild(rs, i)),
        forall|j: int|
            0 <= j < spec_rebuild(rs, i).len() ==> valid_record(#[trigger] spec_rebuild(rs, i)[j]),
        forall|j: int|
            0 <= j < spec_rebuild(rs, i).len() ==> exists|x: int|
                0 <= x < i && valid_record(rs[x]) && #[trigger] spec_rebuild(rs, i)[j] == rs[x],
        has_key(spec_rebuild(rs, i), et, id) <==> exists|x: int|
            0 <= x < i && valid_record(#[trigger] rs[x]) && is_key(rs[x], et, id),
    decreases i,
{
    if i > 0 {
        lemma_rebuild_props(rs, i - 1, et, id);
        let prev = spec_rebuild(rs, i - 1);
        let cur = spec_rebuild(rs, i);
        if valid_record(rs[i - 1]) {
            lemma_upsert_preserves_unique(prev, rs[i - 1]);
            lemma_upsert_has_key(prev, rs[i - 1], et, id);
            lemma_find_key_props(prev, rs[i - 1].etype, rs[i - 1].id);
            let f = find_key(prev, rs[i - 1].etype, rs[i - 1].id);
            assert forall|j: int| 0 <= j < cur.len() implies valid_record(#[trigger] cur[j])
                && exists|x: int| 0 <= x < i && valid_record(rs[x]) && cur[j] == rs[x] by {
                if (f >= 0 && j == f) || (f < 0 && j == prev.len()) {
                    assert(cur[j] == rs[i - 1]);
                } else {
                    assert(cur[j] == prev[j]);
                    let x0 = choose|x: int|
                        0 <= x < i - 1 && valid_record(rs[x]) && prev[j] == rs[x];
                    assert(0 <= x0 < i && valid_record(rs[x0]) && cur[j] == rs[x0]);
                }
            }
        }
    }
}

proof fn lemma_results_of_props(s: Seq<RecordModel>, qs: Seq<Seq<char>>, ms: Seq<ScoredModel>)
    ensures
        spec_results_of(s, qs, ms).len() == ms.len(),
        forall|j: int|
            0 <= j < ms.len() ==> spec_results_of(s, qs, ms)[j] == spec_result_of(
                s,
                qs,
                #[trigger] ms[j],
            ),
    decreases ms.len(),
{
    if ms.len() > 0 {
        lemma_results_of_props(s, qs, ms.drop_last());
        assert forall|j: int| 0 <= j < ms.len() implies spec_results_of(s, qs, ms)[j]
            == spec_result_of(s, qs, #[trigger] ms[j]) by {
            if j < ms.len() - 1 {
                assert(ms.drop_last()[j] == ms[j]);
            }
        }
    }
}

/// A key appears among the results of an unlimited query exactly when a
/// record with that key stands in the index, passes the type and date
/// filters, and holds every query token.
pub proof fn lemma_query_membership(
    s: Seq<RecordModel>,
    text: Seq<char>,
    types: Seq<EntityType>,
    from: Option<i64>,
    to: Option<i64>,
    et: EntityType,
    id: Seq<char>,
)
    ensures
        (exists|j: int|
            0 <= j < spec_query(s, text, types, from, to, Option::None).len() && (#[trigger] spec_query(
                s,
                text,
                types,
                from,
                to,
                Option::None,
            )[j]).etype == et && spec_query(s, text, types, from, to, Option::None)[j].id == id)
            <==> (exists|x: int|
            0 <= x < s.len() && is_key(#[trigger] s[x], et, id) && passes_filter(
                s[x],
                types,
                from,
                to,
            ) && spec_matches(s[x], spec_tokens(text))),
{
    let qs = spec_tokens(text);
    let m = spec_matched(s, qs, types, from, to, s.len() as int);
    let sorted = sort_scored(m);
    let out = spec_query(s, text, types, from, to, Option::None);
    lemma_matched_props(s, qs, types, from, to, s.len() as int);
    lemma_sort_scored(m);
    lemma_results_of_props(s, qs, sorted);
    assert(out == spec_results_of(s, qs, sorted));
    if exists|j: int|
        0 <= j < out.len() && (#[trigger] out[j]).etype == et && out[j].id == id {
        let j = choose|j: int| 0 <= j < out.len() && (#[trigger] out[j]).etype == et && out[j].id == id;
        let sm = sorted[j];
        assert(sorted.contains(sm));
        assert(m.contains(sm));
        let x0 = choose|x0: int| 0 <= x0 < m.len() && m[x0] == sm;
        assert(out[j] == spec_result_of(s, qs, sm));
        assert(is_key(s[sm.idx], et, id));
    }
    if exists|x: int|
        0 <= x < s.len() && is_key(#[trigger] s[x], et, id) && passes_filter(s[x], types, from, to)
            && spec_matches(s[x], qs) {
        let x = choose|x: int|
            0 <= x < s.len() && is_key(#[trigger] s[x], et, id) && passes_filter(
                s[x],
                types,
                from,
                to,
            ) && spec_matches(s[x], qs);
        let sm = ScoredModel { idx: x, rank: spec_rank(s, s[x], qs), updated_at: s[x].updated_at };
        assert(m.contains(sm));
        assert(sorted.contains(sm));
        let j = choose|j: int| 0 <= j < sorted.len() && sorted[j] == sm;
        assert(out[j] == spec_result_of(s, qs, sm));
        assert(out[j].etype == et && out[j].id == id);
    }
}

/// After `upsert(r)`, a query whose tokens `r` holds — in particular a query
/// that is a single token of `r`'s content — returns a result carrying `r`'s
/// key, when no filter excludes it.
pub proof fn lemma_upsert_then_query_finds(
    s: Seq<RecordModel>,
    r: RecordModel,
    text: Seq<char>,
)
    requires
        valid_record(r),
        spec_matches(r, spec_tokens(text)),
    ensures
        exists|j: int|
            0 <= j < spec_query(
                spec_upsert(s, r),
                text,
                Seq::<EntityType>::empty(),
                Option::None,
                Option::None,
                Option::None,
            ).len() && (#[trigger] spec_query(
                spec_upsert(s, r),
                text,
                Seq::<EntityType>::empty(),
                Option::None,
                Option::None,
                Option::None,
            )[j]).etype == r.etype && spec_query(
                spec_upsert(s, r),
                text,
                Seq::<EntityType>::empty(),
                Option::None,
                Option::None,
                Option::None,
            )[j].id == r.id,
{
    let s2 = spec_upsert(s, r);
    lemma_find_key_props(s, r.etype, r.id);
    let i = find_key(s, r.etype, r.id);
    let x: int = if i >= 0 {
        i
    } else {
        s.len() as int
    };
    assert(0 <= x < s2.len() && s2[x] == r);
    assert(is_key(s2[x], r.etype, r.id));
    assert(passes_filter(s2[x], Seq::<EntityType>::empty(), Option::None, Option::None));
    lemma_query_membership(
        s2,
        text,
        Seq::<EntityType>::empty(),
        Option::None,
        Option::None,
        r.etype,
        r.id,
    );
}

/// After `remove(k)`, no query returns a result with key `k`, whatever its
/// text, filters or limit imply, until a later upsert restores the key.
pub proof fn lemma_remove_then_query_misses(
    s: Seq<RecordModel>,
    et: EntityType,
    id: Seq<char>,
    text: Seq<char>,
    types: Seq<EntityType>,
    from: Option<i64>,
    to: Option<i64>,
    limit: Option<usize>,
)
    requires
        unique_keys(s),
    ensures
        forall|j: int|
            0 <= j < spec_query(spec_remove(s, et, id), text, types, from, to, limit).len()
                ==> !((#[trigger] spec_query(spec_remove(s, et, id), text, types, from, to, limit)[j]).etype
                == et && spec_query(spec_remove(s, et, id), text, types, from, to, limit)[j].id
                == id),
{
    let s2 = spec_remove(s, et, id);
    lemma_remove_preserves_unique(s, et, id);
    let qs = spec_tokens(text);
    let m = spec_matched(s2, qs, types, from, to, s2.len() as int);
    let sorted = sort_scored(m);
    lemma_matched_props(s2, qs, types, from, to, s2.len() as int);
    lemma_sort_scored(m);
    lemma_results_of_props(s2, qs, sorted);
    let out = spec_query(s2, text, types, from, to, limit);
    let cut = match limit {
        Option::Some(l) => if (l as int) < sorted.len() {
            sorted.take(l as int)
        } else {
            sorted
        },
        Option::None => sorted,
    };
    lemma_results_of_props(s2, qs, cut);
    assert forall|j: int| 0 <= j < out.len() implies !((#[trigger] out[j]).etype == et && out[j].id
        == id) by {
        assert(out[j] == spec_result_of(s2, qs, cut[j]));
        let sm = cut[j];
        assert(sorted.contains(sm)) by {
            assert(sorted[j] == sm);
        }
        assert(m.contains(sm));
        let x0 = choose|x0: int| 0 <= x0 < m.len() && m[x0] == sm;
        assert(!is_key(s2[sm.idx], et, id));
    }
}

/// Results come out in rank order: more relevant (lower rank) first.
pub proof fn lemma_query_ordered(
    s: Seq<RecordModel>,
    text: Seq<char>,
    types: Seq<EntityType>,
    from: Option<i64>,
    to: Option<i64>,
    limit: Option<usize>,
)
    ensures
        forall|i: int, j: int|
            0 <= i < j < spec_query(s, text, types, from, to, limit).len() ==> (#[trigger] spec_query(
                s,
                text,
                types,
                from,
                to,
                limit,
            )[i]).rank <= (#[trigger] spec_query(s, text, types, from, to, limit)[j]).rank,
{
    let qs = spec_tokens(text);
    let m = spec_matched(s, qs, types, from, to, s.len() as int);
    let sorted = sort_scored(m);
    lemma_sort_scored(m);
    let cut = match limit {
        Option::Some(l) => if (l as int) < sorted.len() {
            sorted.take(l as int)
        } else {
            sorted
        },
        Option::None => sorted,
    };
    lemma_results_of_props(s, qs, cut);
    let out = spec_query(s, text, types, from, to, limit);
    assert forall|i: int, j: int| 0 <= i < j < out.len() implies (#[trigger] out[i]).rank
        <= (#[trigger] out[j]).rank by {
        assert(out[i] == spec_result_of(s, qs, cut[i]));
        assert(out[j] == spec_result_of(s, qs, cut[j]));
        assert(cut[i] == sorted[i] && cut[j] == sorted[j]);
        assert(scored_le(sorted[i], sorted[j]));
    }
}

/// Date filter boundaries are inclusive: a record dated exactly at either
/// bound passes that bound.
pub proof fn lemma_date_boundaries_inclusive(ts: i64, from: i64, to: i64)
    ensures
        in_date_range(ts as int, Option::Some(ts), Option::Some(to)) == (ts <= to),
        in_date_range(ts as int, Option::Some(from), Option::Some(ts)) == (from <= ts),
        in_date_range(ts as int, Option::Some(ts), Option::None),
        in_date_range(ts as int, Option::None, Option::Some(ts)),
{
}

impl SearchIndex {
    /// Atomically replace the whole index with the given records, skipping
    /// invalid ones; a record later in the sequence wins over an earlier one
    /// with the same key. The new state is built aside and swapped in whole,
    /// so no reader ever observes a mixture of old and new; it does not
    /// depend on the prior content. Returns the count of records written.
    pub fn rebuild(&mut self, records: Vec<IndexRecord>) -> (count: usize)
        ensures
            final(self).wf(),
            final(self).models() == spec_rebuild(
                records@.map_values(|r: IndexRecord| r@),
                records@.len() as int,
            ),
            count == final(self).models().len(),
    {
        let ghost rs = records@.map_values(|r: IndexRecord| r@);
        let mut source = records;
        let total: usize = source.len();
        let mut fresh = SearchIndex::new();
        let mut i: usize = 0;
        while source.len() > 0
            invariant
                fresh.wf(),
                total == rs.len(),
                i <= total,
                i + source@.len() == rs.len(),
                fresh.models() == spec_rebuild(rs, i as int),
                forall|j: int| 0 <= j < source@.len() ==> (#[trigger] source@[j])@ == rs[i + j],
            decreases source@.len(),
        {
            let r = source.remove(0);
            proof {
                assert(r@ == rs[i as int]);
                assert(forall|j: int|
                    0 <= j < source@.len() ==> (#[trigger] source@[j])@ == rs[i + 1 + j]);
            }
            if r.entity_id.as_str().unicode_len() > 0 {
                let _ok = fresh.upsert(r);
            }
            i = i + 1;
        }
        let count = fresh.len();
        *self = fresh;
        count
    }
}

} // verus!
