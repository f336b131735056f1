//! The tracker's options: which tickers to summarize, and from when.

use chrono::TimeZone;
use chrono::Utc;
use vstd::prelude::*;
use vstd::string::*;

verus! {

/// What the tracker was asked for.
#[derive(Clone, Debug)]
pub struct Opts {
    /// Ticker symbols, separated by commas.
    pub symbols: String,
    /// Start of the window, as `YYYY-MM-DD HH:MM:SS` in UTC.
    pub from: String,
}

/// What chrono reads out of `from` under the pattern `%Y-%m-%d %H:%M:%S`,
/// taken as UTC: the moment in seconds since the Unix epoch, or nothing
/// where chrono rejects the text.
pub uninterp spec fn utc_seconds_of(from: Seq<char>) -> Option<i64>;

/// Trusted: calls chrono's `TimeZone::datetime_from_str` on `Utc` with the
/// pattern `%Y-%m-%d %H:%M:%S`, and `DateTime::timestamp` on what it parsed.
/// The contract only gives the outcome its name, `utc_seconds_of`: the
/// parse depends on the text alone.
#[verifier::external_body]
#[allow(deprecated)]
fn parse_utc_seconds(from: &str) -> (r: Option<i64>)
    ensures
        r == utc_seconds_of(from@),
{
    match Utc.datetime_from_str(from, "%Y-%m-%d %H:%M:%S") {
        Ok(moment) => Some(moment.timestamp()),
        Err(_) => None,
    }
}

/// The pieces joined into one text, with a comma between neighbours.
pub open spec fn join_with_commas(parts: Seq<Seq<char>>) -> Seq<char>
    decreases parts.len(),
{
    if parts.len() == 0 {
        Seq::empty()
    } else if parts.len() == 1 {
        parts[0]
    } else {
        join_with_commas(parts.drop_last()) + seq![','] + parts.last()
    }
}

/// `parts` are the pieces of `s` between its commas: none holds a comma,
/// and joined with commas they give `s` back.
pub open spec fn is_comma_split(s: Seq<char>, parts: Seq<Seq<char>>) -> bool {
    &&& parts.len() > 0
    &&& forall|k: int| 0 <= k < parts.len() ==> !(#[trigger] parts[k]).contains(',')
    &&& join_with_commas(parts) == s
}

/// The texts of a list of strings.
pub open spec fn texts(items: Seq<String>) -> Seq<Seq<char>> {
    Seq::new(items.len(), |k: int| items[k]@)
}

impl Opts {
    /// The start of the window in seconds since the Unix epoch; nothing
    /// where `from` is not a moment written as `YYYY-MM-DD HH:MM:SS`.
    pub fn datetime(&self) -> (r: Option<i64>)
        ensures
            r == utc_seconds_of(self.from@),
    {
        parse_utc_seconds(self.from.as_str())
    }

    /// The ticker symbols: the pieces of `symbols` between its commas, in
    /// order. A text without a comma is one piece, an empty one too.
    pub fn tickers(&self) -> (r: Vec<String>)
        ensures
            is_comma_split(self.symbols@, texts(r@)),
    {
        let s = self.symbols.as_str();
        let len: usize = s.unicode_len();
        let mut done: Vec<String> = Vec::new();
        let mut start: usize = 0;
        let mut i: usize = 0;
        while i < len
            invariant
                s@ == self.symbols@,
                len == s@.len(),
                start <= i <= len,
                forall|k: int| 0 <= k < done@.len() ==> !(#[trigger] done@[k]@).contains(','),
                !s@.subrange(start as int, i as int).contains(','),
                join_with_commas(texts(done@).push(s@.subrange(start as int, i as int)))
                    == s@.subrange(0, i as int),
            decreases len - i,
        {
            let ghost before = texts(done@);
            let ghost piece = s@.subrange(start as int, i as int);
            let c = s.get_char(i);
            if c == ',' {
                done.push(s.substring_char(start, i).to_owned());
                start = i + 1;
                proof {
                    let after = texts(done@);
                    let empty = s@.subrange(i + 1, i + 1);
                    assert(after =~= before.push(piece));
                    assert(after.push(empty).drop_last() =~= after);
                    assert(s@.subrange(0, i as int) + seq![','] + empty =~= s@.subrange(
                        0,
                        i + 1,
                    ));
                    assert(!empty.contains(','));
                }
            } else {
                proof {
                    let longer = s@.subrange(start as int, i + 1);
                    assert(longer =~= piece.push(c));
                    assert(!longer.contains(',')) by {
                        if longer.contains(',') {
                            let j = choose|j: int| 0 <= j < longer.len() && longer[j] == ',';
                            if j < piece.len() {
                                assert(piece[j] == ',');
                            }
                        }
                    }
                    if before.len() == 0 {
                        assert(before.push(piece)[0] == piece);
                        assert(before.push(longer)[0] == longer);
                        assert(piece.len() == i);
                        assert(longer =~= s@.subrange(0, i + 1));
                    } else {
                        assert(before.push(piece).drop_last() =~= before);
                        assert(before.push(longer).drop_last() =~= before);
                        let joined = join_with_commas(before) + seq![','];
                        assert(joined + longer =~= (joined + piece).push(c));
                        assert(s@.subrange(0, i + 1) =~= s@.subrange(0, i as int).push(c));
                    }
                }
            }
            i += 1;
        }
        let ghost before = texts(done@);
        done.push(s.substring_char(start, len).to_owned());
        proof {
            let piece = s@.subrange(start as int, len as int);
            assert(s@.subrange(0, len as int) =~= s@);
            assert(texts(done@) =~= before.push(piece));
            assert forall|k: int| 0 <= k < texts(done@).len() implies !(#[trigger] texts(
                done@,
            )[k]).contains(',') by {
                if k < before.len() {
                    assert(texts(done@)[k] == done@[k]@);
                }
            }
        }
        done
    }
}

/// A text has only one split at its commas.
pub proof fn lemma_comma_split_unique(s: Seq<char>, a: Seq<Seq<char>>, b: Seq<Seq<char>>)
    requires
        is_comma_split(s, a),
        is_comma_split(s, b),
    ensures
        a == b,
    decreases a.len(),
{
    if a.len() == 1 || b.len() == 1 {
        if a.len() > 1 {
            let at = join_with_commas(a.drop_last()).len() as int;
            assert(s[at] == ',');
            assert(b[0][at] == ',');
        }
        if b.len() > 1 {
            let at = join_with_commas(b.drop_last()).len() as int;
            assert(s[at] == ',');
            assert(a[0][at] == ',');
        }
        assert(a =~= b);
    } else {
        let front_a = a.drop_last();
        let front_b = b.drop_last();
        let at_a = join_with_commas(front_a).len() as int;
        let at_b = join_with_commas(front_b).len() as int;
        assert(s == join_with_commas(front_a) + seq![','] + a.last());
        assert(s == join_with_commas(front_b) + seq![','] + b.last());
        assert(s.len() == at_a + 1 + a.last().len());
        assert(s.len() == at_b + 1 + b.last().len());
        assert(s[at_a] == ',');
        assert(s[at_b] == ',');
        if at_b > at_a {
            assert(a.last()[at_b - at_a - 1] == s[at_b]);
        }
        if at_a > at_b {
            assert(b.last()[at_a - at_b - 1] == s[at_a]);
        }
        assert(join_with_commas(front_a) =~= s.subrange(0, at_a));
        assert(join_with_commas(front_b) =~= s.subrange(0, at_a));
        assert(a.last() =~= s.subrange(at_a + 1, s.len() as int));
        assert(b.last() =~= s.subrange(at_a + 1, s.len() as int));
        assert forall|k: int| 0 <= k < front_a.len() implies !(#[trigger] front_a[k]).contains(
            ',',
        ) by {
            assert(front_a[k] == a[k]);
        }
        assert forall|k: int| 0 <= k < front_b.len() implies !(#[trigger] front_b[k]).contains(
            ',',
        ) by {
            assert(front_b[k] == b[k]);
        }
        lemma_comma_split_unique(s.subrange(0, at_a), front_a, front_b);
        assert(a =~= front_a.push(a.last()));
        assert(b =~= front_b.push(b.last()));
    }
}

} // verus!
