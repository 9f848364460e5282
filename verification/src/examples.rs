//! Choosing the playground's example scripts among the files of a directory.
use vstd::prelude::*;

use crate::parser::chars_of;

verus! {

/// A file name whose extension is `qurts`: it ends in `.qurts`, and that dot
/// is not its first character.
pub open spec fn has_qurts_extension(name: Seq<char>) -> bool {
    name.len() > 6 && name.subrange(name.len() - 6, name.len() as int) == seq!['.', 'q', 'u', 'r', 't', 's']
}

/// Texts in lexicographic order of their characters, which is the order of
/// the bytes of their UTF-8 forms.
pub open spec fn text_le(a: Seq<char>, b: Seq<char>) -> bool
    decreases a.len(),
{
    if a.len() == 0 {
        true
    } else if b.len() == 0 {
        false
    } else if (a[0] as u32) < (b[0] as u32) {
        true
    } else if (a[0] as u32) == (b[0] as u32) {
        text_le(a.drop_first(), b.drop_first())
    } else {
        false
    }
}

pub proof fn lemma_text_le_total(a: Seq<char>, b: Seq<char>)
    ensures
        text_le(a, b) || text_le(b, a),
    decreases a.len(),
{
    if a.len() > 0 && b.len() > 0 && (a[0] as u32) == (b[0] as u32) {
        lemma_text_le_total(a.drop_first(), b.drop_first());
    }
}

pub proof fn lemma_text_le_trans(a: Seq<char>, b: Seq<char>, c: Seq<char>)
    requires
        text_le(a, b),
        text_le(b, c),
    ensures
        text_le(a, c),
    decreases a.len(),
{
    if a.len() > 0 && b.len() > 0 && c.len() > 0 && (a[0] as u32) == (b[0] as u32) && (b[0] as u32)
        == (c[0] as u32) {
        lemma_text_le_trans(a.drop_first(), b.drop_first(), c.drop_first());
    }
}

/// The names among `names` that have the extension `qurts`, in order.
pub open spec fn qurts_names(names: Seq<Seq<char>>) -> Seq<Seq<char>>
    decreases names.len(),
{
    if names.len() == 0 {
        Seq::empty()
    } else {
        let rest = qurts_names(names.drop_last());
        if has_qurts_extension(names.last()) {
            rest.push(names.last())
        } else {
            rest
        }
    }
}

/// Texts in order.
pub open spec fn sorted_texts(ts: Seq<Seq<char>>) -> bool {
    forall|i: int, j: int| 0 <= i < j < ts.len() ==> text_le(#[trigger] ts[i], #[trigger] ts[j])
}

pub open spec fn views(v: Seq<String>) -> Seq<Seq<char>> {
    v.map_values(|s: String| s@)
}

fn text_le_exec(a: &Vec<char>, b: &Vec<char>) -> (r: bool)
    ensures
        r == text_le(a@, b@),
{
    let mut i: usize = 0;
    proof {
        assert(a@.subrange(0, a@.len() as int) =~= a@);
        assert(b@.subrange(0, b@.len() as int) =~= b@);
    }
    while i < a.len()
        invariant
            i <= a@.len(),
            i <= b@.len(),
            text_le(a@, b@) == text_le(a@.subrange(i as int, a@.len() as int), b@.subrange(
                i as int,
                b@.len() as int,
            )),
        decreases a@.len() - i,
    {
        let ghost sa = a@.subrange(i as int, a@.len() as int);
        let ghost sb = b@.subrange(i as int, b@.len() as int);
        if i >= b.len() {
            return false;
        }
        let x = a[i] as u32;
        let y = b[i] as u32;
        assert(sa[0] == a@[i as int] && sb[0] == b@[i as int]);
        if x < y {
            return true;
        }
        if x != y {
            return false;
        }
        proof {
            assert(sa.drop_first() =~= a@.subrange(i + 1, a@.len() as int));
            assert(sb.drop_first() =~= b@.subrange(i + 1, b@.len() as int));
        }
        i = i + 1;
    }
    proof {
        assert(a@.subrange(i as int, a@.len() as int).len() == 0);
    }
    true
}

fn has_qurts_extension_exec(name: &Vec<char>) -> (r: bool)
    ensures
        r == has_qurts_extension(name@),
{
    let n = name.len();
    if n <= 6 {
        return false;
    }
    let ok = name[n - 6] == '.' && name[n - 5] == 'q' && name[n - 4] == 'u' && name[n - 3] == 'r'
        && name[n - 2] == 't' && name[n - 1] == 's';
    proof {
        let tail = name@.subrange(n - 6, n as int);
        let want = seq!['.', 'q', 'u', 'r', 't', 's'];
        if ok {
            assert(tail =~= want);
        } else {
            if tail == want {
                assert(tail[0] == want[0] && tail[1] == want[1] && tail[2] == want[2]);
                assert(tail[3] == want[3] && tail[4] == want[4] && tail[5] == want[5]);
            }
        }
    }
    ok
}

/// The example scripts among the file names of a directory: those with the
/// extension `qurts`, in order of their names.
#[verifier::loop_isolation(false)]
pub fn example_script_names(names: &Vec<String>) -> (r: Vec<String>)
    ensures
        views(r@).to_multiset() == qurts_names(views(names@)).to_multiset(),
        sorted_texts(views(r@)),
{
    broadcast use vstd::seq_lib::to_multiset_insert, vstd::seq_lib::to_multiset_build;

    let ghost all = views(names@);
    let mut r: Vec<String> = Vec::new();
    let mut k: usize = 0;
    proof {
        assert(all.take(0) =~= Seq::<Seq<char>>::empty());
        assert(views(r@) =~= Seq::<Seq<char>>::empty());
    }
    while k < names.len()
        invariant
            k <= names@.len(),
            all == views(names@),
            views(r@).to_multiset() == qurts_names(all.take(k as int)).to_multiset(),
            sorted_texts(views(r@)),
        decreases names@.len() - k,
    {
        proof {
            assert(all.take(k + 1).drop_last() =~= all.take(k as int));
            assert(all.take(k + 1).last() == names@[k as int]@);
        }
        let x = chars_of(names[k].as_str());
        if has_qurts_extension_exec(&x) {
            let mut pos: usize = 0;
            while pos < r.len()
                invariant
                    pos <= r@.len(),
                    forall|i: int| 0 <= i < pos ==> text_le(#[trigger] views(r@)[i], x@),
                decreases r@.len() - pos,
            {
                let y = chars_of(r[pos].as_str());
                if !text_le_exec(&y, &x) {
                    break;
                }
                pos = pos + 1;
            }
            let ghost before = views(r@);
            let s = names[k].clone();
            r.insert(pos, s);
            proof {
                assert(views(r@) =~= before.insert(pos as int, x@));
                if pos < before.len() {
                    lemma_text_le_total(before[pos as int], x@);
                }
                assert forall|i: int, j: int|
                    0 <= i < j < views(r@).len() implies text_le(
                    #[trigger] views(r@)[i],
                    #[trigger] views(r@)[j],
                ) by {
                    let v = views(r@);
                    if j < pos {
                        assert(v[i] == before[i] && v[j] == before[j]);
                    } else if j == pos {
                        assert(v[i] == before[i] && v[j] == x@);
                    } else if i == pos {
                        assert(v[j] == before[j - 1]);
                        if j - 1 > pos {
                            assert(text_le(before[pos as int], before[j - 1]));
                            lemma_text_le_trans(x@, before[pos as int], before[j - 1]);
                        }
                    } else if i < pos {
                        assert(v[i] == before[i] && v[j] == before[j - 1]);
                        if j - 1 > pos {
                            lemma_text_le_trans(before[i], x@, before[pos as int]);
                            lemma_text_le_trans(before[i], before[pos as int], before[j - 1]);
                        }
                    } else {
                        assert(v[i] == before[i - 1] && v[j] == before[j - 1]);
                    }
                }
                assert(qurts_names(all.take(k + 1)) =~= qurts_names(all.take(k as int)).push(x@));
            }
        } else {
            proof {
                assert(qurts_names(all.take(k + 1)) =~= qurts_names(all.take(k as int)));
            }
        }
        k = k + 1;
    }
    proof {
        assert(all.take(names@.len() as int) =~= all);
    }
    r
}

} // verus!
