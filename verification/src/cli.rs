//! The values that the command line gives.

use vstd::prelude::*;
use vstd::string::StrSliceExecFns;

verus! {

/// The watched addresses as texts, and the path of the ledger.
#[derive(Clone, Debug)]
pub struct PassbookArgs {
    pub addresses: Vec<String>,
    pub db_path: String,
}

/// The fields of a text between its commas. A text without a comma is one field,
/// even if it is empty.
pub open spec fn fields(s: Seq<char>) -> Seq<Seq<char>>
    decreases s.len(),
{
    if s.len() == 0 {
        seq![Seq::empty()]
    } else {
        let before = fields(s.drop_last());
        if s.last() == ',' {
            before.push(Seq::empty())
        } else {
            before.update(before.len() - 1, before.last().push(s.last()))
        }
    }
}

/// Fields with commas between them.
pub open spec fn with_commas(fs: Seq<Seq<char>>) -> Seq<char>
    decreases fs.len(),
{
    if fs.len() == 0 {
        Seq::empty()
    } else if fs.len() == 1 {
        fs[0]
    } else {
        with_commas(fs.drop_last()).push(',') + fs.last()
    }
}

/// There is at least one field; the fields with commas between them are the text,
/// and none has a comma in it.
pub proof fn fields_make_up_the_text(s: Seq<char>)
    ensures
        fields(s).len() > 0,
        with_commas(fields(s)) == s,
        forall|i: int| 0 <= i < fields(s).len() ==> !(#[trigger] fields(s)[i]).contains(','),
    decreases s.len(),
{
    if s.len() == 0 {
        assert(with_commas(fields(s)) =~= s);
    } else {
        let init = s.drop_last();
        let c = s.last();
        fields_make_up_the_text(init);
        let before = fields(init);
        assert(init.push(c) =~= s);
        if c == ',' {
            assert(fields(s).drop_last() =~= before);
            assert(with_commas(fields(s)) =~= s);
        } else {
            let after = before.update(before.len() - 1, before.last().push(c));
            assert(after.drop_last() =~= before.drop_last());
            assert(with_commas(after) =~= with_commas(before).push(c));
            assert forall|i: int| 0 <= i < after.len() implies !(#[trigger] after[i]).contains(
                ',',
            ) by {
                if i < before.len() - 1 {
                    assert(after[i] == before[i]);
                } else {
                    assert(!before[i].contains(','));
                    if after[i].contains(',') {
                        let k = choose|k: int| 0 <= k < after[i].len() && after[i][k] == ',';
                        assert(before[i][k] == ',');
                    }
                }
            }
        }
    }
}

/// What texts say, in order.
pub open spec fn texts_view(texts: Seq<String>) -> Seq<Seq<char>> {
    Seq::new(texts.len(), |i: int| texts[i]@)
}

/// [`fields`].
pub fn split_commas(s: &str) -> (r: Vec<String>)
    ensures
        texts_view(r@) == fields(s@),
{
    let len: usize = s.unicode_len();
    let mut out: Vec<String> = Vec::new();
    let mut start: usize = 0;
    let mut k: usize = 0;
    let ghost head = fields(s@.take(0));
    assert(s@.take(0) =~= Seq::<char>::empty());
    assert(head.drop_last() =~= Seq::<Seq<char>>::empty());
    assert(texts_view(out@) =~= head.drop_last());
    assert(s@.subrange(0, 0) =~= Seq::<char>::empty());
    while k < len
        invariant
            start <= k <= len == s@.len(),
            fields(s@.take(k as int)).len() > 0,
            texts_view(out@) == fields(s@.take(k as int)).drop_last(),
            s@.subrange(start as int, k as int) == fields(s@.take(k as int)).last(),
        decreases len - k,
    {
        let c = s.get_char(k);
        let ghost before = fields(s@.take(k as int));
        let ghost after = fields(s@.take(k + 1));
        proof {
            assert(s@.take(k + 1).drop_last() =~= s@.take(k as int));
            assert(s@.take(k + 1).last() == c);
        }
        if c == ',' {
            let field = s.substring_char(start, k).to_owned();
            let ghost done = out@;
            out.push(field);
            proof {
                assert(texts_view(out@) =~= texts_view(done).push(field@));
                assert(before.drop_last().push(before.last()) =~= before);
                assert(after.drop_last() =~= before);
                assert(s@.subrange(k + 1, k + 1) =~= Seq::<char>::empty());
            }
            start = k + 1;
        } else {
            proof {
                assert(s@.subrange(start as int, k + 1) =~= s@.subrange(
                    start as int,
                    k as int,
                ).push(c));
                assert(after.drop_last() =~= before.drop_last());
            }
        }
        k += 1;
    }
    let field = s.substring_char(start, len).to_owned();
    let ghost done = out@;
    out.push(field);
    proof {
        assert(s@.take(k as int) =~= s@);
        let all = fields(s@);
        assert(texts_view(out@) =~= texts_view(done).push(field@));
        assert(all.drop_last().push(all.last()) =~= all);
    }
    out
}

impl PassbookArgs {
    /// The arguments from what the flags or the environment gave, with the
    /// defaults for what they did not.
    pub fn from_values(addresses: Option<String>, db_path: Option<String>) -> (r: PassbookArgs)
        ensures
            texts_view(r.addresses@) == fields(
                match addresses {
                    Some(a) => a@,
                    None => ""@,
                },
            ),
            r.db_path@ == (match db_path {
                Some(p) => p@,
                None => "/data/passbook.db"@,
            }),
    {
        let addresses = match addresses {
            Some(a) => split_commas(a.as_str()),
            None => split_commas(""),
        };
        let db_path = match db_path {
            Some(p) => p,
            None => "/data/passbook.db".to_owned(),
        };
        PassbookArgs { addresses, db_path }
    }
}

} // verus!
