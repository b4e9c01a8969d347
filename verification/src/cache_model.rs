//! A model of the cache as the stages of a retrieval use it, and what
//! holds of every retrieval in that model. The cache is taken to be a
//! store that keeps, for each path, the text that was last written there;
//! reading a path brings that text and changes nothing.

use crate::decimal::{
    all_digits, decimal, is_digit, lemma_decimal_denotes, lemma_decimal_injective,
};
use crate::provider::{entry_text, path_text};
use vstd::prelude::*;

verus! {

/// What reading `path` brings: its text, or nothing where none was written.
pub open spec fn stored_at(files: Map<Seq<char>, Seq<char>>, path: Seq<char>) -> Option<
    Seq<char>,
> {
    if files.dom().contains(path) {
        Some(files[path])
    } else {
        None
    }
}

/// What a lookup of the input of `day` in `year` finds in `files`.
pub open spec fn lookup(files: Map<Seq<char>, Seq<char>>, root: Seq<char>, year: nat, day: nat)
    -> Option<Seq<char>> {
    entry_text(stored_at(files, path_text(root, year, day)))
}

/// The store once `text` is written as the input of `day` in `year`.
pub open spec fn write_back(
    files: Map<Seq<char>, Seq<char>>,
    root: Seq<char>,
    year: nat,
    day: nat,
    text: Seq<char>,
) -> Map<Seq<char>, Seq<char>> {
    files.insert(path_text(root, year, day), text)
}

/// How a retrieval ends.
pub struct Outcome {
    /// The store as the retrieval leaves it.
    pub files: Map<Seq<char>, Seq<char>>,
    /// The text obtained, or the failure of the download.
    pub result: Result<Seq<char>, ureq::Error>,
    /// How many downloads were made.
    pub downloads: nat,
}

/// One retrieval of the input of `day` in `year` from the store `files`,
/// where a download, if one is made, ends as `served`: the cache is tried
/// once, then the network once, and a downloaded text is written back.
pub open spec fn retrieve(
    files: Map<Seq<char>, Seq<char>>,
    root: Seq<char>,
    year: nat,
    day: nat,
    served: Result<Seq<char>, ureq::Error>,
) -> Outcome {
    match lookup(files, root, year, day) {
        Some(text) => Outcome { files, result: Ok(text), downloads: 0 },
        None => match served {
            Ok(text) => Outcome {
                files: write_back(files, root, year, day, text),
                result: Ok(text),
                downloads: 1,
            },
            Err(error) => Outcome { files, result: Err(error), downloads: 1 },
        },
    }
}

/// A text written back for a puzzle is what the next lookup for that
/// puzzle finds, character for character; unless the text is empty, which
/// a lookup takes for no entry.
pub proof fn lemma_written_text_is_found(
    files: Map<Seq<char>, Seq<char>>,
    root: Seq<char>,
    year: nat,
    day: nat,
    text: Seq<char>,
)
    ensures
        lookup(write_back(files, root, year, day, text), root, year, day) == if text.len() == 0 {
            None
        } else {
            Some(text)
        },
{
}

/// A retrieval that finds its text in the cache leaves the store as it
/// was, so that the same retrieval, made again, ends in the same way.
pub proof fn lemma_lookup_changes_nothing(
    files: Map<Seq<char>, Seq<char>>,
    root: Seq<char>,
    year: nat,
    day: nat,
    served: Result<Seq<char>, ureq::Error>,
    served_again: Result<Seq<char>, ureq::Error>,
)
    requires
        lookup(files, root, year, day).is_some(),
    ensures
        retrieve(files, root, year, day, served).files == files,
        retrieve(retrieve(files, root, year, day, served).files, root, year, day, served_again)
            == retrieve(files, root, year, day, served),
{
}

/// A cache entry with text is returned as it is, and no download is made,
/// whatever the network would have served.
pub proof fn lemma_hit_makes_no_download(
    files: Map<Seq<char>, Seq<char>>,
    root: Seq<char>,
    year: nat,
    day: nat,
    served: Result<Seq<char>, ureq::Error>,
)
    requires
        stored_at(files, path_text(root, year, day)) matches Some(text) && text.len() > 0,
    ensures
        retrieve(files, root, year, day, served).result == Ok::<Seq<char>, ureq::Error>(
            files[path_text(root, year, day)],
        ),
        retrieve(files, root, year, day, served).downloads == 0,
{
}

/// A cache entry that is absent or empty leads to exactly one download,
/// whose outcome is the outcome of the retrieval.
pub proof fn lemma_miss_makes_one_download(
    files: Map<Seq<char>, Seq<char>>,
    root: Seq<char>,
    year: nat,
    day: nat,
    served: Result<Seq<char>, ureq::Error>,
)
    requires
        stored_at(files, path_text(root, year, day)) matches Some(text) ==> text.len() == 0,
    ensures
        retrieve(files, root, year, day, served).downloads == 1,
        retrieve(files, root, year, day, served).result == served,
{
}

/// A text that a retrieval downloads is the text that the next retrieval
/// of the same puzzle finds in the cache, without a download of its own.
pub proof fn lemma_download_fills_the_cache(
    files: Map<Seq<char>, Seq<char>>,
    root: Seq<char>,
    year: nat,
    day: nat,
    text: Seq<char>,
    served_next: Result<Seq<char>, ureq::Error>,
)
    requires
        lookup(files, root, year, day).is_none(),
        text.len() > 0,
    ensures
        ({
            let first = retrieve(files, root, year, day, Ok(text));
            let next = retrieve(first.files, root, year, day, served_next);
            &&& first.result == Ok::<Seq<char>, ureq::Error>(text)
            &&& lookup(first.files, root, year, day) == Some(text)
            &&& next.result == Ok::<Seq<char>, ureq::Error>(text)
            &&& next.downloads == 0
            &&& next.files == first.files
        }),
{
}

/// Two texts that begin with digits and go on with something that is no
/// digit are equal only where the digits are the same, and what follows.
proof fn lemma_numeral_ends(a: Seq<char>, after_a: Seq<char>, b: Seq<char>, after_b: Seq<char>)
    requires
        all_digits(a),
        all_digits(b),
        after_a.len() > 0 && !is_digit(after_a[0]),
        after_b.len() > 0 && !is_digit(after_b[0]),
        a + after_a == b + after_b,
    ensures
        a == b,
        after_a == after_b,
{
    let whole = a + after_a;
    if a.len() < b.len() {
        assert(whole[a.len() as int] == after_a[0]);
        assert((b + after_b)[a.len() as int] == b[a.len() as int]);
    } else if b.len() < a.len() {
        assert((b + after_b)[b.len() as int] == after_b[0]);
        assert(whole[b.len() as int] == a[b.len() as int]);
    } else {
        assert(a =~= whole.take(a.len() as int));
        assert(b =~= (b + after_b).take(b.len() as int));
        assert(after_a =~= whole.skip(a.len() as int));
        assert(after_b =~= (b + after_b).skip(b.len() as int));
    }
}

/// The inputs of two puzzles are kept in two files: below one root, the
/// same path stands for the same year and day.
pub proof fn lemma_one_file_for_each_puzzle(
    root: Seq<char>,
    year: nat,
    day: nat,
    other_year: nat,
    other_day: nat,
)
    requires
        path_text(root, year, day) == path_text(root, other_year, other_day),
    ensures
        year == other_year,
        day == other_day,
{
    reveal_strlit("/");
    reveal_strlit(".txt");
    lemma_decimal_denotes(year);
    lemma_decimal_denotes(day);
    lemma_decimal_denotes(other_year);
    lemma_decimal_denotes(other_day);
    let head = root + "/"@;
    let tail = "/"@ + decimal(day) + ".txt"@;
    let other_tail = "/"@ + decimal(other_day) + ".txt"@;
    let path = path_text(root, year, day);
    let other_path = path_text(root, other_year, other_day);
    assert(path =~= head + (decimal(year) + tail));
    assert(other_path =~= head + (decimal(other_year) + other_tail));
    assert(decimal(year) + tail =~= path.skip(head.len() as int));
    assert(decimal(other_year) + other_tail =~= other_path.skip(head.len() as int));
    assert(tail[0] == '/');
    assert(other_tail[0] == '/');
    lemma_numeral_ends(decimal(year), tail, decimal(other_year), other_tail);
    lemma_decimal_injective(year, other_year);
    assert(tail =~= "/"@ + (decimal(day) + ".txt"@));
    assert(other_tail =~= "/"@ + (decimal(other_day) + ".txt"@));
    assert(decimal(day) + ".txt"@ =~= tail.skip(1));
    assert(decimal(other_day) + ".txt"@ =~= other_tail.skip(1));
    assert(".txt"@[0] == '.');
    lemma_numeral_ends(decimal(day), ".txt"@, decimal(other_day), ".txt"@);
    lemma_decimal_injective(day, other_day);
}

/// What is written back for one puzzle leaves what a lookup finds for
/// every other puzzle as it was.
pub proof fn lemma_entries_do_not_collide(
    files: Map<Seq<char>, Seq<char>>,
    root: Seq<char>,
    year: nat,
    day: nat,
    text: Seq<char>,
    other_year: nat,
    other_day: nat,
)
    requires
        year != other_year || day != other_day,
    ensures
        lookup(write_back(files, root, year, day, text), root, other_year, other_day) == lookup(
            files,
            root,
            other_year,
            other_day,
        ),
{
    if path_text(root, year, day) == path_text(root, other_year, other_day) {
        lemma_one_file_for_each_puzzle(root, year, day, other_year, other_day);
    }
}

} // verus!
