//! Reading the agency's variable listing, a JSON document whose `variables`
//! object maps each variable name to an object with `label` and `concept`.
use crate::catalog::{VarEntry, VarEntryView};
use vstd::prelude::*;

verus! {

/// For a JSON text: for each member of its `group` object, in document order,
/// the member's name and the text of its `first` and `second` members; none
/// when the text is not JSON.
pub uninterp spec fn listing_of(
    text: Seq<char>,
    group: Seq<char>,
    first: Seq<char>,
    second: Seq<char>,
) -> Option<Seq<(Seq<char>, Seq<char>, Seq<char>)>>;

pub open spec fn triples_view(v: Seq<(String, String, String)>) -> Seq<
    (Seq<char>, Seq<char>, Seq<char>),
> {
    v.map_values(|x: (String, String, String)| (x.0@, x.1@, x.2@))
}

/// Relies on `json::parse`, then `Index<&str>` and `entries` of
/// `json::JsonValue` and its `Display` (a string's own text): the result
/// depends on the arguments alone.
#[verifier::external_body]
fn json_members(text: &str, group: &str, first: &str, second: &str) -> (r: Option<
    Vec<(String, String, String)>,
>)
    ensures
        match listing_of(text@, group@, first@, second@) {
            None => r is None,
            Some(t) => r matches Some(v) && triples_view(v@) == t,
        },
{
    let doc = json::parse(text).ok()?;
    Some(
        doc[group].entries().map(|(k, v)| (k.to_string(), v[first].to_string(), v[second].to_string())).collect(),
    )
}

pub open spec fn text_of(s: &str) -> Seq<char> {
    s@
}

/// The triples of a variable listing: name, `label`, `concept`.
pub open spec fn listing_text(text: Seq<char>) -> Option<Seq<(Seq<char>, Seq<char>, Seq<char>)>> {
    listing_of(text, text_of("variables"), text_of("label"), text_of("concept"))
}

pub open spec fn entries_of(t: Seq<(Seq<char>, Seq<char>, Seq<char>)>) -> Seq<VarEntryView> {
    t.map_values(
        |x: (Seq<char>, Seq<char>, Seq<char>)| VarEntryView { name: x.0, label: x.1, concept: x.2 },
    )
}

/// The entries of a variable listing, in document order: for each member of
/// `variables`, its name and the text of its `label` and `concept` members.
/// Gives none when the text is not JSON.
pub fn listing_entries(text: &str) -> (r: Option<Vec<VarEntry>>)
    ensures
        match listing_text(text@) {
            None => r is None,
            Some(t) => r matches Some(v) && crate::catalog::entries_view(v@) == entries_of(t),
        },
{
    let members = match json_members(text, "variables", "label", "concept") {
        Some(m) => m,
        None => {
            return None;
        },
    };
    let ghost t = triples_view(members@);
    let mut out: Vec<VarEntry> = Vec::new();
    let mut i: usize = 0;
    while i < members.len()
        invariant
            i <= members@.len(),
            t == triples_view(members@),
            out@.len() == i,
            forall|k: int| 0 <= k < i ==> #[trigger] out@[k]@ == entries_of(t)[k],
        decreases members@.len() - i,
    {
        let m = &members[i];
        out.push(VarEntry { name: m.0.clone(), label: m.1.clone(), concept: m.2.clone() });
        i = i + 1;
    }
    assert(crate::catalog::entries_view(out@) =~= entries_of(t));
    Some(out)
}

} // verus!
