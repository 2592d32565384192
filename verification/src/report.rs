use vstd::prelude::*;

verus! {

/// What `{:?}` writes for a string: the text between double quotes, with
/// escapes where `Debug` for `str` puts them.
pub uninterp spec fn debug_text(text: Seq<char>) -> Seq<char>;

/// Formats a string with `{:?}`, that is with `Debug` for `str` of the
/// standard library. Not proved: that what comes out depends on the text alone.
#[verifier::external_body]
fn quoted(word: &str) -> (out: String)
    ensures
        out@ == debug_text(word@),
{
    format!("{:?}", word)
}

/// Appends with `String::push_str` of the standard library: the text grows
/// by what is pushed.
#[verifier::external_body]
fn append(text: &mut String, more: &str)
    ensures
        final(text)@ == old(text)@ + more@,
{
    text.push_str(more);
}

/// The items one after another, with a comma and a space between each two.
pub open spec fn comma_separated(items: Seq<Seq<char>>) -> Seq<char>
    decreases items.len(),
{
    if items.len() == 0 {
        Seq::empty()
    } else if items.len() == 1 {
        items[0]
    } else {
        comma_separated(items.drop_last()) + seq![',', ' '] + items.last()
    }
}

/// The items as an array on one line: between square brackets, with a comma
/// and a space between each two.
pub open spec fn array_text(items: Seq<Seq<char>>) -> Seq<char> {
    seq!['['] + comma_separated(items) + seq![']']
}

/// The texts of a sequence of strings.
pub open spec fn texts(items: Seq<String>) -> Seq<Seq<char>> {
    Seq::new(items.len(), |k: int| items[k]@)
}

/// Each word as `{:?}` writes it.
pub open spec fn debug_texts(words: Seq<&str>) -> Seq<Seq<char>> {
    Seq::new(words.len(), |k: int| debug_text(words[k]@))
}

/// Writes the items as an array on one line. The items are taken as they
/// are: what is to stand between quotes comes with its quotes.
pub fn json_array(items: &Vec<String>) -> (out: String)
    ensures
        out@ == array_text(texts(items@)),
{
    proof {
        reveal_strlit("[");
        reveal_strlit(", ");
        reveal_strlit("]");
    }
    let ghost all = texts(items@);
    let mut out = String::new();
    append(&mut out, "[");
    assert(out@ =~= seq!['['] + comma_separated(all.take(0)));
    let count: usize = items.len();
    let mut k: usize = 0;
    while k < count
        invariant
            count == items@.len(),
            all == texts(items@),
            k <= count,
            out@ == seq!['['] + comma_separated(all.take(k as int)),
            ", "@ == seq![',', ' '],
        decreases count - k,
    {
        if k > 0 {
            append(&mut out, ", ");
        }
        append(&mut out, items[k].as_str());
        proof {
            let now = all.take(k + 1);
            assert(now.drop_last() =~= all.take(k as int));
            assert(now.last() == items@[k as int]@);
            if k == 0 {
                assert(comma_separated(all.take(0)) =~= Seq::<char>::empty());
            }
            assert(out@ =~= seq!['['] + comma_separated(now));
        }
        k += 1;
    }
    assert(all.take(count as int) =~= all);
    append(&mut out, "]");
    out
}

/// Writes the words as a JSON array of strings on one line, each word as
/// `{:?}` writes it.
pub fn json_words(words: &[&str]) -> (out: String)
    ensures
        out@ == array_text(debug_texts(words@)),
{
    let mut items: Vec<String> = Vec::new();
    let count: usize = words.len();
    let mut k: usize = 0;
    while k < count
        invariant
            count == words@.len(),
            k <= count,
            items@.len() == k,
            forall|j: int| 0 <= j < k ==> (#[trigger] items@[j])@ == debug_text(words@[j]@),
        decreases count - k,
    {
        items.push(quoted(words[k]));
        k += 1;
    }
    assert(texts(items@) =~= debug_texts(words@));
    json_array(&items)
}

} // verus!
