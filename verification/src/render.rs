use vstd::prelude::*;

use crate::entry::{models_of, EntryModel, KeyValueEntry};
use crate::policy::{filter_entries, filter_spec};

verus! {

/// What the stream shows for a byte sequence: the permissive text
/// decoding, with every invalid sequence replaced by a placeholder.  The
/// decoding depends on the bytes alone.
pub uninterp spec fn lossy_text(b: Seq<u8>) -> Seq<char>;

/// Relies on `String::from_utf8_lossy`: decodes the bytes as text,
/// replacing invalid sequences instead of failing; a function of the
/// bytes alone.
#[verifier::external_body]
fn lossy_string(b: &Vec<u8>) -> (r: String)
    ensures
        r@ == lossy_text(b@),
{
    String::from_utf8_lossy(b).into_owned()
}

/// Relies on `format!` with two string arguments: plain concatenation
/// around the separator.
#[verifier::external_body]
fn join_key_value(k: &String, v: &String) -> (r: String)
    ensures
        r@ == k@ + " => "@ + v@,
{
    format!("{} => {}", k, v)
}

/// The line the tool shows for one entry.
pub open spec fn rendered_line(e: EntryModel) -> Seq<char> {
    lossy_text(e.key) + " => "@ + lossy_text(e.value)
}

/// The lines the tool shows for a list of entries, in the list's order.
pub open spec fn rendered_lines(s: Seq<EntryModel>) -> Seq<Seq<char>> {
    s.map_values(|e: EntryModel| rendered_line(e))
}

/// Renders one entry as `key => value`, both sides decoded permissively.
pub fn render_entry(e: &KeyValueEntry) -> (r: String)
    ensures
        r@ == rendered_line(e@),
{
    let k = lossy_string(&e.key);
    let v = lossy_string(&e.value);
    join_key_value(&k, &v)
}

/// The texts of a list of strings, in order.
pub open spec fn texts_of(s: Seq<String>) -> Seq<Seq<char>> {
    s.map_values(|x: String| x@)
}

/// Renders a list of entries, one line each, keeping the order.  The read
/// operation shows a snapshot's restore plan through this.
pub fn render_plain(entries: &Vec<KeyValueEntry>) -> (r: Vec<String>)
    ensures
        texts_of(r@) == rendered_lines(models_of(entries@)),
{
    let mut out: Vec<String> = Vec::new();
    let mut i: usize = 0;
    while i < entries.len()
        invariant
            i <= entries@.len(),
            out@.len() == i,
            forall|j: int| 0 <= j < i ==> out@[j]@ == rendered_lines(models_of(entries@))[j],
        decreases entries@.len() - i,
    {
        let line = render_entry(&entries[i]);
        out.push(line);
        proof {
            assert(models_of(entries@)[i as int] == entries@[i as int]@);
        }
        i += 1;
    }
    proof {
        assert forall|j: int| 0 <= j < out@.len() implies (texts_of(out@))[j] == rendered_lines(
            models_of(entries@),
        )[j] by {
            assert((texts_of(out@))[j] == out@[j]@);
        }
        assert(texts_of(out@) =~= rendered_lines(models_of(entries@)));
    }
    out
}

/// The print operation's projection of one fetch result: the surviving
/// entries' lines, in fetch order.
pub fn render_remote(entries: Vec<KeyValueEntry>, include_all: bool) -> (r: Vec<String>)
    ensures
        texts_of(r@) == rendered_lines(filter_spec(models_of(entries@), include_all)),
{
    let kept = filter_entries(entries, include_all);
    render_plain(&kept)
}

} // verus!
