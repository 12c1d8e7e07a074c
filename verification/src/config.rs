//! Persistence: encoding a store to its JSON config document and decoding it
//! back, together with the classification of load and save failures and the
//! load-or-create decision for a first run.

use vstd::prelude::*;

use crate::dirmark::{keys_sorted, kv_map, Dirmarks};

verus! {

/// The user-meaningful categories of an underlying I/O failure.
#[derive(Clone, Copy, Debug, PartialEq, Eq, Structural)]
pub enum IoErrorKind {
    NotFound,
    PermissionDenied,
    Other,
}

pub open spec fn error_message_spec(kind: IoErrorKind) -> Seq<char> {
    match kind {
        IoErrorKind::NotFound => "File not found"@,
        IoErrorKind::PermissionDenied => "Permission denied"@,
        IoErrorKind::Other => "Unknown error"@,
    }
}

/// The user-facing description of an I/O failure's cause.
pub fn error_message(kind: IoErrorKind) -> (r: &'static str)
    ensures
        r@ == error_message_spec(kind),
{
    match kind {
        IoErrorKind::NotFound => "File not found",
        IoErrorKind::PermissionDenied => "Permission denied",
        IoErrorKind::Other => "Unknown error",
    }
}

/// A failure while saving the config: an I/O failure, or a serialization
/// failure carrying the I/O cause extracted from it, if there was one.
#[derive(Clone, Copy, Debug, PartialEq, Eq)]
pub enum ConfigSaveError {
    Io(IoErrorKind),
    Serialization(Option<IoErrorKind>),
}

impl ConfigSaveError {
    pub open spec fn message_spec(&self) -> Seq<char> {
        match *self {
            ConfigSaveError::Io(k) => error_message_spec(k),
            ConfigSaveError::Serialization(Some(k)) => error_message_spec(k),
            ConfigSaveError::Serialization(None) => "Unknown error"@,
        }
    }

    /// The classified, human-readable message for this failure.
    pub fn message(&self) -> (r: &'static str)
        ensures
            r@ == self.message_spec(),
    {
        match self {
            ConfigSaveError::Io(k) => error_message(*k),
            ConfigSaveError::Serialization(Some(k)) => error_message(*k),
            ConfigSaveError::Serialization(None) => "Unknown error",
        }
    }
}

/// A failure while loading the config: an I/O failure, or a serialization
/// failure carrying the I/O cause extracted from it, if there was one.
#[derive(Clone, Copy, Debug, PartialEq, Eq)]
pub enum ConfigLoadError {
    Io(IoErrorKind),
    Serialization(Option<IoErrorKind>),
}

impl ConfigLoadError {
    pub open spec fn message_spec(&self) -> Seq<char> {
        match *self {
            ConfigLoadError::Io(k) => error_message_spec(k),
            ConfigLoadError::Serialization(Some(k)) => error_message_spec(k),
            ConfigLoadError::Serialization(None) => "Unknown error"@,
        }
    }

    /// The classified, human-readable message for this failure.
    pub fn message(&self) -> (r: &'static str)
        ensures
            r@ == self.message_spec(),
    {
        match self {
            ConfigLoadError::Io(k) => error_message(*k),
            ConfigLoadError::Serialization(Some(k)) => error_message(*k),
            ConfigLoadError::Serialization(None) => "Unknown error",
        }
    }
}

} // verus!

verus! {

#[verifier::external_type_specification]
#[verifier::external_body]
pub struct ExSerdeJsonError(serde_json::Error);

/// The shape of the config document: a top-level object of objects of
/// string fields, each object as a sequence of key/value pairs.
pub type DocSeq = Seq<(Seq<char>, Seq<(Seq<char>, Seq<(Seq<char>, Seq<char>)>)>)>;

/// What parsing a text as such a document yields, if it parses at all.
pub uninterp spec fn parse_doc_spec(s: Seq<char>) -> Option<DocSeq>;

/// The pretty-printed JSON text written for a document.
pub uninterp spec fn pretty_doc_of(doc: DocSeq) -> Seq<char>;

/// Relies on serde_json::from_str: parses the text as a JSON object of
/// objects of objects of strings, failing exactly on text that does not have
/// that shape; the result is a function of the text alone.
#[verifier::external_body]
fn parse_doc(s: &str) -> (r: Result<
    Vec<(String, Vec<(String, Vec<(String, String)>)>)>,
    serde_json::Error,
>)
    ensures
        (r is Ok) == (parse_doc_spec(s@) is Some),
        r matches Ok(d) ==> Some(d.deep_view()) == parse_doc_spec(s@),
{
    match serde_json::from_str::<std::collections::BTreeMap<
        String,
        std::collections::BTreeMap<String, std::collections::BTreeMap<String, String>>,
    >>(s) {
        Ok(m) => Ok(m.into_iter().map(|(k, v)| (k, v.into_iter().map(|(k2, v2)| (k2, v2.into_iter().collect())).collect())).collect()),
        Err(e) => Err(e),
    }
}

/// Relies on serde_json::to_string_pretty: renders the nested maps as a
/// pretty-printed JSON document. Its documentation owes failure only to a
/// failing `Serialize` impl or a non-string map key; here every key and
/// every leaf is a string, so the call succeeds. The output is a function
/// of the entries alone, and a document whose keys are strictly ascending
/// at every level is read back unchanged by serde_json::from_str at the
/// same nested-map type.
#[verifier::external_body]
fn emit_doc(doc: &Vec<(String, Vec<(String, Vec<(String, String)>)>)>) -> (r: Result<
    String,
    serde_json::Error,
>)
    ensures
        r is Ok,
        r matches Ok(s) ==> s@ == pretty_doc_of(doc.deep_view()) && (doc_sorted(doc.deep_view())
            ==> parse_doc_spec(s@) == Some(doc.deep_view())),
{
    let m: std::collections::BTreeMap<_, std::collections::BTreeMap<_, std::collections::BTreeMap<_, _>>> =
        doc.iter().map(|(k, v)| (k, v.iter().map(|(k2, v2)| (k2, v2.iter().map(|(k3, v3)| (k3, v3)).collect())).collect())).collect();
    serde_json::to_string_pretty(&m)
}

/// Relies on serde_json::Error::io_error_kind: exposes the underlying I/O
/// cause of a (de)serialization failure, when the error wraps one.
#[verifier::external_body]
fn classify_serde_error(e: &serde_json::Error) -> (r: Option<IoErrorKind>) {
    match e.io_error_kind() {
        None => None,
        Some(std::io::ErrorKind::NotFound) => Some(IoErrorKind::NotFound),
        Some(std::io::ErrorKind::PermissionDenied) => Some(IoErrorKind::PermissionDenied),
        Some(_) => Some(IoErrorKind::Other),
    }
}

} // verus!

verus! {

/// The first value listed under key `k`, if any.
pub open spec fn first_val<V>(s: Seq<(Seq<char>, V)>, k: Seq<char>) -> Option<V>
    decreases s.len(),
{
    if s.len() == 0 {
        None
    } else if s[0].0 == k {
        Some(s[0].1)
    } else {
        first_val(s.skip(1), k)
    }
}

/// The store mapping described by the record objects, provided every record
/// carries a "path" field.
pub open spec fn records_map(rs: Seq<(Seq<char>, Seq<(Seq<char>, Seq<char>)>)>) -> Option<
    Map<Seq<char>, Seq<char>>,
>
    decreases rs.len(),
{
    if rs.len() == 0 {
        Some(Map::empty())
    } else {
        match records_map(rs.drop_last()) {
            None => None,
            Some(m) => match first_val(rs.last().1, "path"@) {
                None => None,
                Some(p) => Some(m.insert(rs.last().0, p)),
            },
        }
    }
}

/// The store mapping described by a whole document: the records under its
/// first "dirmarks" member.
pub open spec fn doc_store_map(doc: DocSeq) -> Option<Map<Seq<char>, Seq<char>>> {
    match first_val(doc, "dirmarks"@) {
        None => None,
        Some(inner) => records_map(inner),
    }
}

/// The record objects written for the given store entries.
pub open spec fn store_records(kv: Seq<(Seq<char>, Seq<char>)>) -> Seq<
    (Seq<char>, Seq<(Seq<char>, Seq<char>)>),
> {
    kv.map_values(|e: (Seq<char>, Seq<char>)| (e.0, seq![("path"@, e.1)]))
}

/// The document written for the given store entries.
pub open spec fn store_doc(kv: Seq<(Seq<char>, Seq<char>)>) -> DocSeq {
    seq![("dirmarks"@, store_records(kv))]
}

/// Keys strictly ascending at every level of the document.
pub open spec fn doc_sorted(doc: DocSeq) -> bool {
    &&& keys_sorted(doc)
    &&& forall|i: int| 0 <= i < doc.len() ==> keys_sorted((#[trigger] doc[i]).1)
    &&& forall|i: int, j: int|
        0 <= i < doc.len() && 0 <= j < doc[i].1.len() ==> keys_sorted((#[trigger] doc[i].1[j]).1)
}

/// The document written for a sorted store is sorted at every level: its
/// top level and each record hold one member, and its records stand in the
/// store's own key order.
pub proof fn lemma_store_doc_sorted(kv: Seq<(Seq<char>, Seq<char>)>)
    requires
        keys_sorted(kv),
    ensures
        doc_sorted(store_doc(kv)),
{
    let doc = store_doc(kv);
    let rs = store_records(kv);
    assert forall|i: int, j: int| 0 <= i < j < rs.len() implies crate::dirmark::key_lt(
        (#[trigger] rs[i]).0,
        (#[trigger] rs[j]).0,
    ) by {
        assert(rs[i].0 == kv[i].0);
        assert(rs[j].0 == kv[j].0);
    }
    assert(doc[0].1 == rs);
}

proof fn lemma_records_map_of_store(kv: Seq<(Seq<char>, Seq<char>)>)
    ensures
        records_map(store_records(kv)) == Some(kv_map(kv)),
    decreases kv.len(),
{
    let rs = store_records(kv);
    if kv.len() == 0 {
        assert(rs.len() == 0);
    } else {
        lemma_records_map_of_store(kv.drop_last());
        assert(rs.drop_last() =~= store_records(kv.drop_last()));
        assert(rs.last() == (kv.last().0, seq![("path"@, kv.last().1)]));
        assert(first_val(seq![("path"@, kv.last().1)], "path"@) == Some(kv.last().1));
    }
}

/// Decoding the document that is written for a store's entries restores
/// exactly the store's mapping: the verified half of the save/load round
/// trip, up to the JSON text that carries the document.
pub proof fn lemma_store_doc_round_trip(kv: Seq<(Seq<char>, Seq<char>)>)
    ensures
        doc_store_map(store_doc(kv)) == Some(kv_map(kv)),
{
    let doc = store_doc(kv);
    assert(doc[0].0 == "dirmarks"@);
    assert(first_val(doc, "dirmarks"@) == Some(store_records(kv)));
    lemma_records_map_of_store(kv);
}

/// The save/load round trip through the JSON text: the serialized form of a
/// store parses back to the store's document (the emitter's contract gives
/// the hypothesis for every store, since a store's document is sorted), and
/// that document decodes to exactly the store's mapping.
pub proof fn lemma_save_load_round_trip(kv: Seq<(Seq<char>, Seq<char>)>)
    requires
        parse_doc_spec(pretty_doc_of(store_doc(kv))) == Some(store_doc(kv)),
    ensures
        parse_doc_spec(pretty_doc_of(store_doc(kv))) matches Some(doc) && doc_store_map(doc)
            == Some(kv_map(kv)),
{
    lemma_store_doc_round_trip(kv);
}

/// Serializes the store into the pretty-printed JSON config document; this
/// cannot fail, and the written text decodes back to the store's document.
pub fn encode_config(dirmarks: &Dirmarks) -> (r: Result<String, ConfigSaveError>)
    requires
        dirmarks.wf(),
    ensures
        r is Ok,
        r matches Ok(s) ==> s@ == pretty_doc_of(store_doc(dirmarks@)) && parse_doc_spec(s@)
            == Some(store_doc(dirmarks@)),
{
    let all = dirmarks.get_all();
    let n = all.len();
    let mut inner: Vec<(String, Vec<(String, String)>)> = Vec::new();
    let mut i: usize = 0;
    while i < n
        invariant
            i <= n,
            n == all@.len(),
            all@.len() == dirmarks@.len(),
            forall|j: int|
                0 <= j < dirmarks@.len() ==> (#[trigger] all@[j]).0@ == dirmarks@[j].0
                    && all@[j].1.path@ == dirmarks@[j].1,
            inner@.len() == i,
            forall|j: int|
                0 <= j < i ==> (#[trigger] inner.deep_view()[j]) == store_records(dirmarks@)[j],
        decreases n - i,
    {
        let ghost prev = inner@;
        let ghost prev_dv = inner.deep_view();
        let mut rec: Vec<(String, String)> = Vec::new();
        rec.push(("path".to_owned(), all[i].1.path.clone()));
        let k = all[i].0.clone();
        inner.push((k, rec));
        proof {
            assert(rec.deep_view() =~~= seq![("path"@, dirmarks@[i as int].1)]);
            assert forall|j: int| 0 <= j < i + 1 implies (#[trigger] inner.deep_view()[j])
                == store_records(dirmarks@)[j] by {
                assert(store_records(dirmarks@)[j] == (
                    dirmarks@[j].0,
                    seq![("path"@, dirmarks@[j].1)],
                ));
                assert(inner.deep_view()[j] == inner@[j].deep_view());
                if j < i {
                    assert(inner@[j] == prev[j]);
                    assert(prev_dv[j] == prev[j].deep_view());
                } else {
                    assert(inner@[j] == (k, rec));
                    assert(inner@[j].deep_view() == (k@, rec.deep_view()));
                }
            }
        }
        i = i + 1;
    }
    proof {
        assert(inner.deep_view() =~~= store_records(dirmarks@));
    }
    let mut doc: Vec<(String, Vec<(String, Vec<(String, String)>)>)> = Vec::new();
    doc.push(("dirmarks".to_owned(), inner));
    proof {
        assert(doc.deep_view()[0] == ("dirmarks"@, store_records(dirmarks@)));
        assert(doc.deep_view() =~~= store_doc(dirmarks@));
        lemma_store_doc_sorted(dirmarks@);
    }
    match emit_doc(&doc) {
        Ok(s) => Ok(s),
        Err(e) => {
            let k = classify_serde_error(&e);
            Err(ConfigSaveError::Serialization(k))
        },
    }
}

} // verus!

verus! {

use crate::dirmark::str_eq;

proof fn lemma_records_map_missing(
    rs: Seq<(Seq<char>, Seq<(Seq<char>, Seq<char>)>)>,
    i: int,
)
    requires
        0 <= i < rs.len(),
        first_val(rs[i].1, "path"@) is None,
    ensures
        records_map(rs) is None,
    decreases rs.len(),
{
    if i < rs.len() - 1 {
        assert(rs.drop_last()[i] == rs[i]);
        lemma_records_map_missing(rs.drop_last(), i);
    }
}

/// The position of the document's first "dirmarks" member.
fn find_dirmarks_idx(doc: &Vec<(String, Vec<(String, Vec<(String, String)>)>)>) -> (r: Option<
    usize,
>)
    ensures
        match r {
            Some(i) => i < doc@.len() && first_val(doc.deep_view(), "dirmarks"@) == Some(
                doc.deep_view()[i as int].1,
            ),
            None => first_val(doc.deep_view(), "dirmarks"@) is None,
        },
{
    let ghost dv = doc.deep_view();
    let n = doc.len();
    let mut i: usize = 0;
    proof {
        assert(dv.skip(0) =~= dv);
    }
    loop
        invariant
            i <= n,
            n == doc@.len(),
            dv == doc.deep_view(),
            dv.len() == n,
            first_val(dv, "dirmarks"@) == first_val(dv.skip(i as int), "dirmarks"@),
        decreases n - i,
    {
        if i == n {
            proof {
                assert(dv.skip(i as int).len() == 0);
            }
            return None;
        }
        proof {
            assert(dv[i as int] == doc@[i as int].deep_view());
            assert(dv.skip(i as int)[0] == dv[i as int]);
        }
        if str_eq(doc[i].0.as_str(), "dirmarks") {
            proof {
                assert(first_val(dv.skip(i as int), "dirmarks"@) == Some(dv[i as int].1));
            }
            return Some(i);
        }
        proof {
            assert(dv.skip(i as int).skip(1) =~= dv.skip(i as int + 1));
        }
        i = i + 1;
    }
}

/// The value of the record's first "path" field.
fn find_path_field(rec: &Vec<(String, String)>) -> (r: Option<String>)
    ensures
        match r {
            Some(p) => first_val(rec.deep_view(), "path"@) == Some(p@),
            None => first_val(rec.deep_view(), "path"@) is None,
        },
{
    let ghost dv = rec.deep_view();
    let n = rec.len();
    let mut i: usize = 0;
    proof {
        assert(dv.skip(0) =~= dv);
    }
    loop
        invariant
            i <= n,
            n == rec@.len(),
            dv == rec.deep_view(),
            dv.len() == n,
            first_val(dv, "path"@) == first_val(dv.skip(i as int), "path"@),
        decreases n - i,
    {
        if i == n {
            proof {
                assert(dv.skip(i as int).len() == 0);
            }
            return None;
        }
        proof {
            assert(dv[i as int] == rec@[i as int].deep_view());
            assert(dv.skip(i as int)[0] == dv[i as int]);
        }
        if str_eq(rec[i].0.as_str(), "path") {
            proof {
                assert(first_val(dv.skip(i as int), "path"@) == Some(dv[i as int].1));
            }
            return Some(rec[i].1.clone());
        }
        proof {
            assert(dv.skip(i as int).skip(1) =~= dv.skip(i as int + 1));
        }
        i = i + 1;
    }
}

/// Deserializes the JSON config document into a store; malformed text or a
/// document without the expected members is a serialization failure, never a
/// silently empty store.
pub fn decode_config(s: &str) -> (r: Result<Dirmarks, ConfigLoadError>)
    ensures
        (r is Ok) == (parse_doc_spec(s@) is Some && doc_store_map(parse_doc_spec(s@).unwrap())
            is Some),
        r matches Ok(st) ==> st.wf() && Some(st.as_map()) == doc_store_map(
            parse_doc_spec(s@).unwrap(),
        ),
        r matches Err(e) ==> e is Serialization,
        parse_doc_spec(s@) is Some && doc_store_map(parse_doc_spec(s@).unwrap()) is None ==> r
            == Err::<Dirmarks, ConfigLoadError>(ConfigLoadError::Serialization(None)),
{
    let doc = match parse_doc(s) {
        Ok(d) => d,
        Err(e) => {
            let k = classify_serde_error(&e);
            return Err(ConfigLoadError::Serialization(k));
        },
    };
    let inner_idx = match find_dirmarks_idx(&doc) {
        Some(i) => i,
        None => {
            return Err(ConfigLoadError::Serialization(None));
        },
    };
    let inner = &doc[inner_idx].1;
    proof {
        assert(doc.deep_view()[inner_idx as int] == doc@[inner_idx as int].deep_view());
    }
    let ghost iv = inner.deep_view();
    let m = inner.len();
    let mut st = Dirmarks::new();
    let mut j: usize = 0;
    while j < m
        invariant
            j <= m,
            m == inner@.len(),
            iv == inner.deep_view(),
            iv.len() == m,
            parse_doc_spec(s@) == Some(doc.deep_view()),
            first_val(doc.deep_view(), "dirmarks"@) == Some(iv),
            st.wf(),
            records_map(iv.take(j as int)) == Some(st.as_map()),
        decreases m - j,
    {
        proof {
            assert(iv[j as int] == inner@[j as int].deep_view());
        }
        let p = match find_path_field(&inner[j].1) {
            Some(p) => p,
            None => {
                proof {
                    lemma_records_map_missing(iv, j as int);
                }
                return Err(ConfigLoadError::Serialization(None));
            },
        };
        st.insert_at(inner[j].0.as_str(), p);
        proof {
            assert(iv.take(j as int + 1).drop_last() =~= iv.take(j as int));
            assert(iv.take(j as int + 1).last() == iv[j as int]);
        }
        j = j + 1;
    }
    proof {
        assert(iv.take(m as int) =~= iv);
    }
    Ok(st)
}

/// What the surrounding layer's attempt to read the config file produced.
#[derive(Debug)]
pub enum ReadOutcome {
    Content(String),
    IoFailure(IoErrorKind),
}

/// What to do after an attempted load: use the loaded store, create and
/// persist a fresh empty one, or stop with the classified failure.
#[derive(Debug)]
pub enum LoadDecision {
    Loaded(Dirmarks),
    CreateNew,
    Fail(ConfigLoadError),
}

/// Decides how to proceed from a read attempt: content is decoded; a missing
/// file is the expected first run and asks for a fresh empty store; any
/// other failure is fatal and never silently resets the store.
pub fn load_or_create_config(outcome: ReadOutcome) -> (r: LoadDecision)
    ensures
        outcome matches ReadOutcome::IoFailure(k) ==> (if k == IoErrorKind::NotFound {
            r == LoadDecision::CreateNew
        } else {
            r == LoadDecision::Fail(ConfigLoadError::Io(k))
        }),
        outcome matches ReadOutcome::Content(s) ==> match r {
            LoadDecision::Loaded(st) => st.wf() && parse_doc_spec(s@) is Some && Some(st.as_map())
                == doc_store_map(parse_doc_spec(s@).unwrap()),
            LoadDecision::Fail(e) => e is Serialization && !(parse_doc_spec(s@) is Some
                && doc_store_map(parse_doc_spec(s@).unwrap()) is Some),
            LoadDecision::CreateNew => false,
        },
{
    match outcome {
        ReadOutcome::Content(s) => match decode_config(s.as_str()) {
            Ok(st) => LoadDecision::Loaded(st),
            Err(e) => LoadDecision::Fail(e),
        },
        ReadOutcome::IoFailure(k) => match k {
            IoErrorKind::NotFound => LoadDecision::CreateNew,
            _ => LoadDecision::Fail(ConfigLoadError::Io(k)),
        },
    }
}

} // verus!
