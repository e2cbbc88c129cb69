//! Maps of strings written as JSON objects, as the peer rows keep them.
use vstd::prelude::*;
use crate::columns::{ColumnValues, keys_distinct, pairs_view, value_of, with_column};

verus! {

/// What `serde_json::from_str::<serde_json::Value>` reads from `s`, seen as
/// an object of strings: `None` where `s` is not JSON, `Some(None)` where it
/// is JSON but not an object, and otherwise the members of the object, each
/// value `Some(text)` where it is a JSON string and `None` where it is not.
pub uninterp spec fn json_object_entries(s: Seq<char>) -> Option<Option<Seq<(Seq<char>, Option<Seq<char>>)>>>;

/// The JSON text that `serde_json::to_string` writes for an object whose
/// members are `entries`, each value a JSON string.
pub uninterp spec fn json_object_text(entries: Seq<(Seq<char>, Seq<char>)>) -> Seq<char>;

/// The view of an optional string.
pub open spec fn opt_view(o: Option<String>) -> Option<Seq<char>> {
    match o {
        Some(s) => Some(s@),
        None => None,
    }
}

/// The view of parsed members.
pub open spec fn members_view(v: Seq<(String, Option<String>)>) -> Seq<(Seq<char>, Option<Seq<char>>)> {
    v.map_values(|p: (String, Option<String>)| (p.0@, opt_view(p.1)))
}

/// `serde_json::from_str::<serde_json::Value>(s)`, with the members of an
/// object taken apart: each value is kept where it is a JSON string. The
/// empty text is no JSON value (the parser reports the end of input).
#[verifier::external_body]
fn parse_json(s: &str) -> (r: Option<Option<Vec<(String, Option<String>)>>>)
    ensures
        r is None <==> json_object_entries(s@) is None,
        s@.len() == 0 ==> r is None,
        r matches Some(None) ==> json_object_entries(s@) == Some(None::<Seq<(Seq<char>, Option<Seq<char>>)>>),
        r matches Some(Some(v)) ==> json_object_entries(s@) == Some(Some(members_view(v@))),
{
    match serde_json::from_str::<serde_json::Value>(s) {
        Err(_) => None,
        Ok(serde_json::Value::Object(obj)) => Some(Some(
            obj.into_iter().map(|(k, v)| match v {
                serde_json::Value::String(t) => (k, Some(t)),
                _ => (k, None),
            }).collect(),
        )),
        Ok(_) => Some(None),
    }
}

/// Whether the JSON text `t` reads as a map of strings giving every column
/// the value that `m` gives it.
pub open spec fn reads_as(t: Seq<char>, m: Seq<(Seq<char>, Seq<char>)>) -> bool {
    &&& json_string_map(t) is Some
    &&& forall|column: Seq<char>| #[trigger] value_of(json_string_map(t)->0, column) == value_of(m, column)
}

/// `serde_json::to_string` of the object whose members are `entries`, each
/// value a JSON string. The text written is a JSON object whose members are
/// those strings again, so that, where no member name occurs twice, reading
/// it back gives each name its value (the members may come back in another order).
#[verifier::external_body]
pub(crate) fn json_text(entries: &Vec<(String, String)>) -> (r: String)
    ensures
        r@ == json_object_text(pairs_view(entries@)),
        keys_distinct(pairs_view(entries@)) ==> reads_as(r@, pairs_view(entries@)),
{
    let obj: serde_json::Map<String, serde_json::Value> =
        entries.iter().map(|(k, v)| (k.clone(), serde_json::Value::String(v.clone()))).collect();
    serde_json::to_string(&obj).unwrap()
}

/// The map that results from setting the members in order, a value that is
/// not a string counting as the empty string.
pub open spec fn fold_members(m: Seq<(Seq<char>, Option<Seq<char>>)>) -> Seq<(Seq<char>, Seq<char>)>
    decreases m.len(),
{
    if m.len() == 0 {
        Seq::empty()
    } else {
        let last = m.last();
        with_column(
            fold_members(m.drop_last()),
            last.0,
            match last.1 {
                Some(t) => t,
                None => Seq::empty(),
            },
        )
    }
}

/// The map of strings that the JSON text `s` holds: `None` where `s` is not
/// JSON, the empty map where it is JSON but not an object.
pub open spec fn json_string_map(s: Seq<char>) -> Option<Seq<(Seq<char>, Seq<char>)>> {
    match json_object_entries(s) {
        None => None,
        Some(None) => Some(Seq::empty()),
        Some(Some(m)) => Some(fold_members(m)),
    }
}

/// Reads the map of strings that the JSON text `s` holds, as the peer rows
/// keep it; `None` where `s` is not JSON.
pub fn parse_string_map(s: &str) -> (r: Option<ColumnValues>)
    ensures
        r is None <==> json_string_map(s@) is None,
        s@.len() == 0 ==> r is None,
        r matches Some(m) ==> json_string_map(s@) == Some(m@),
{
    match parse_json(s) {
        None => None,
        Some(None) => Some(ColumnValues::new()),
        Some(Some(members)) => {
            let ghost mv = members_view(members@);
            let mut map = ColumnValues::new();
            let mut i: usize = 0;
            assert(mv.take(0) =~= Seq::<(Seq<char>, Option<Seq<char>>)>::empty());
            while i < members.len()
                invariant
                    i <= members@.len(),
                    mv == members_view(members@),
                    map@ == fold_members(mv.take(i as int)),
                decreases members.len() - i,
            {
                let key = members[i].0.as_str();
                let value: String = match &members[i].1 {
                    Some(t) => t.clone(),
                    None => String::new(),
                };
                assert(mv.take(i + 1).drop_last() =~= mv.take(i as int));
                map.insert(key, value);
                i = i + 1;
            }
            assert(mv.take(i as int) =~= mv);
            Some(map)
        },
    }
}


proof fn lemma_fold_distinct(m: Seq<(Seq<char>, Option<Seq<char>>)>)
    ensures
        keys_distinct(fold_members(m)),
    decreases m.len(),
{
    if m.len() > 0 {
        lemma_fold_distinct(m.drop_last());
        let last = m.last();
        crate::columns::lemma_with_column_distinct(fold_members(m.drop_last()), last.0,
            match last.1 {
                Some(t) => t,
                None => Seq::empty(),
            });
    }
}

/// A map of strings read from JSON text has no column twice.
pub proof fn lemma_read_map_distinct(t: Seq<char>)
    ensures
        json_string_map(t) matches Some(m) ==> keys_distinct(m),
{
    match json_object_entries(t) {
        Some(Some(m)) => lemma_fold_distinct(m),
        _ => {},
    }
}

}
