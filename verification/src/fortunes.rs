//! Scan-and-augment over the `fortune` collection: append one synthetic
//! message to the scanned list and sort everything by text, byte-wise.

use vstd::prelude::*;
use vstd::multiset::Multiset;
use vstd::seq_lib::lemma_multiset_commutative;
use vstd::seq_lib::group_to_multiset_ensures;
use vstd::string::StringSliceAdditionalSpecFns;
use vstd::utf8::encode_utf8;
use crate::models::{fortune_views, Fortune, FortuneView};

verus! {

/// The fixed text of the synthetic message, recreated on every scan and
/// never persisted.
pub open spec fn synthetic_text() -> Seq<char> {
    "Additional fortune added at request time."@
}

/// The value of the synthetic message: key 0 and the fixed text.
pub open spec fn synthetic_fortune() -> FortuneView {
    FortuneView { id: 0, message: synthetic_text() }
}

/// Byte-wise lexicographic order on byte strings: the empty string comes
/// first, and a proper prefix comes before everything that extends it.
pub open spec fn lex_leq(a: Seq<u8>, b: Seq<u8>) -> bool
    decreases a.len(),
{
    if a.len() == 0 {
        true
    } else if b.len() == 0 {
        false
    } else if a[0] < b[0] {
        true
    } else if a[0] > b[0] {
        false
    } else {
        lex_leq(a.drop_first(), b.drop_first())
    }
}

/// Message order on fortunes: byte-wise lexicographic order on the UTF-8
/// bytes of the text.
pub open spec fn msg_leq(x: FortuneView, y: FortuneView) -> bool {
    lex_leq(encode_utf8(x.message), encode_utf8(y.message))
}

/// Every adjacent pair (indeed every pair) of texts is non-decreasing under
/// byte-wise lexicographic order.
pub open spec fn sorted_by_message(s: Seq<Fortune>) -> bool {
    forall|i: int, j: int| 0 <= i < j < s.len() ==> #[trigger] msg_leq(s[i]@, s[j]@)
}

/// Law: any two byte strings compare, one way or the other.
pub proof fn lemma_lex_total(a: Seq<u8>, b: Seq<u8>)
    ensures
        lex_leq(a, b) || lex_leq(b, a),
    decreases a.len(),
{
    if a.len() == 0 || b.len() == 0 {
    } else if a[0] == b[0] {
        lemma_lex_total(a.drop_first(), b.drop_first());
    }
}

/// Law: byte-wise lexicographic order is transitive.
pub proof fn lemma_lex_trans(a: Seq<u8>, b: Seq<u8>, c: Seq<u8>)
    requires
        lex_leq(a, b),
        lex_leq(b, c),
    ensures
        lex_leq(a, c),
    decreases a.len(),
{
    if a.len() == 0 {
    } else if a[0] == b[0] && b[0] == c[0] {
        lemma_lex_trans(a.drop_first(), b.drop_first(), c.drop_first());
    }
}

/// Compare two byte strings in byte-wise lexicographic order.
fn bytes_leq(a: &[u8], b: &[u8]) -> (r: bool)
    ensures
        r == lex_leq(a@, b@),
{
    let mut i: usize = 0;
    proof {
        assert(a@.skip(0) =~= a@);
        assert(b@.skip(0) =~= b@);
    }
    loop
        invariant
            i <= a@.len(),
            i <= b@.len(),
            lex_leq(a@, b@) == lex_leq(a@.skip(i as int), b@.skip(i as int)),
        decreases a@.len() - i,
    {
        if i >= a.len() {
            proof {
                assert(a@.skip(i as int) =~= Seq::<u8>::empty());
            }
            return true;
        }
        if i >= b.len() {
            proof {
                assert(b@.skip(i as int) =~= Seq::<u8>::empty());
            }
            return false;
        }
        let x = a[i];
        let y = b[i];
        proof {
            assert(a@.skip(i as int)[0] == a@[i as int]);
            assert(b@.skip(i as int)[0] == b@[i as int]);
        }
        if x < y {
            return true;
        }
        if x > y {
            return false;
        }
        proof {
            assert(a@.skip(i as int).drop_first() =~= a@.skip(i as int + 1));
            assert(b@.skip(i as int).drop_first() =~= b@.skip(i as int + 1));
        }
        i += 1;
    }
}

/// Compare two fortunes by text, on the UTF-8 bytes of each text.
fn fortune_leq(x: &Fortune, y: &Fortune) -> (r: bool)
    ensures
        r == msg_leq(x@, y@),
{
    bytes_leq(x.message.as_str().as_bytes(), y.message.as_str().as_bytes())
}

/// Inserting into a sequence puts exactly one more value into its contents.
proof fn lemma_to_multiset_insert<A>(s: Seq<A>, i: int, x: A)
    requires
        0 <= i <= s.len(),
    ensures
        s.insert(i, x).to_multiset() == s.to_multiset().insert(x),
{
    broadcast use group_to_multiset_ensures;

    let s1 = s.subrange(0, i);
    let s2 = s.subrange(i, s.len() as int);
    lemma_multiset_commutative(s1.push(x), s2);
    lemma_multiset_commutative(s1, s2);
    assert(s1 + s2 =~= s);
    assert(s1.push(x).to_multiset() =~= s1.to_multiset().insert(x));
    assert(s.insert(i, x).to_multiset() =~= s.to_multiset().insert(x));
}

/// The values of a list with one fortune inserted are the values of the list
/// with that fortune's value inserted at the same place.
proof fn lemma_views_insert(s: Seq<Fortune>, i: int, f: Fortune)
    requires
        0 <= i <= s.len(),
    ensures
        fortune_views(s.insert(i, f)) == fortune_views(s).insert(i, f@),
{
    s.insert_ensures(i, f);
    fortune_views(s).insert_ensures(i, f@);
    assert(fortune_views(s.insert(i, f)) =~= fortune_views(s).insert(i, f@));
}

/// Insert one fortune into a text-sorted list, keeping it sorted; the
/// contents grow by exactly that fortune.
fn insert_sorted(v: &mut Vec<Fortune>, f: Fortune)
    requires
        sorted_by_message(old(v)@),
    ensures
        sorted_by_message(final(v)@),
        final(v)@.len() == old(v)@.len() + 1,
        fortune_views(final(v)@).to_multiset() == fortune_views(old(v)@).to_multiset().insert(
            f@,
        ),
{
    let ghost s0 = v@;
    let ghost fv = f@;
    let mut i: usize = 0;
    loop
        invariant
            v@ == s0,
            f@ == fv,
            sorted_by_message(s0),
            i <= s0.len(),
            forall|j: int| 0 <= j < i ==> #[trigger] msg_leq(s0[j]@, fv),
        ensures
            v@ == s0,
            i <= s0.len(),
            forall|j: int| 0 <= j < i ==> #[trigger] msg_leq(s0[j]@, fv),
            i < s0.len() ==> msg_leq(fv, s0[i as int]@),
        decreases s0.len() - i,
    {
        if i == v.len() {
            break ;
        }
        if fortune_leq(&f, &v[i]) {
            break ;
        }
        proof {
            lemma_lex_total(encode_utf8(fv.message), encode_utf8(s0[i as int]@.message));
        }
        i += 1;
    }
    proof {
        s0.insert_ensures(i as int, f);
        let s1 = s0.insert(i as int, f);
        assert forall|p: int, q: int| 0 <= p < q < s1.len() implies #[trigger] msg_leq(
            s1[p]@,
            s1[q]@,
        ) by {
            if q < i {
                assert(msg_leq(s0[p]@, s0[q]@));
            } else if p > i {
                assert(msg_leq(s0[p - 1]@, s0[q - 1]@));
            } else if p < i && q == i {
                assert(msg_leq(s0[p]@, fv));
            } else if p < i && q > i {
                assert(msg_leq(s0[p]@, s0[q - 1]@));
            } else {
                // p == i, q > i: the new fortune precedes the whole tail
                assert(msg_leq(fv, s0[i as int]@));
                if q == i + 1 {
                    assert(s1[q] == s0[i as int]);
                } else {
                    assert(msg_leq(s0[i as int]@, s0[q - 1]@));
                    lemma_lex_trans(
                        encode_utf8(fv.message),
                        encode_utf8(s0[i as int]@.message),
                        encode_utf8(s0[q - 1]@.message),
                    );
                }
            }
        }
        lemma_views_insert(s0, i as int, f);
        lemma_to_multiset_insert(fortune_views(s0), i as int, fv);
    }
    v.insert(i, f);
}

/// Sort fortunes by text in byte-wise lexicographic order; the result holds
/// exactly the fortunes that went in.
fn sort_fortunes(v: Vec<Fortune>) -> (r: Vec<Fortune>)
    ensures
        sorted_by_message(r@),
        r@.len() == v@.len(),
        fortune_views(r@).to_multiset() == fortune_views(v@).to_multiset(),
{
    broadcast use group_to_multiset_ensures;

    let mut rest = v;
    let mut out: Vec<Fortune> = Vec::new();
    let ghost total = fortune_views(rest@).to_multiset();
    let ghost n = rest@.len();
    proof {
        assert(fortune_views(out@).to_multiset() =~= Multiset::<FortuneView>::empty());
    }
    while rest.len() > 0
        invariant
            sorted_by_message(out@),
            out@.len() + rest@.len() == n,
            fortune_views(out@).to_multiset().add(fortune_views(rest@).to_multiset()) == total,
        decreases rest@.len(),
    {
        let ghost vs_before = fortune_views(rest@);
        let ghost out_before = fortune_views(out@);
        let f = rest.pop().unwrap();
        proof {
            vs_before.to_multiset_ensures();
            assert(vs_before[vs_before.len() - 1] == f@);
            assert(vs_before.contains(f@));
            assert(vs_before.to_multiset().count(f@) > 0);
            assert(fortune_views(rest@) =~= vs_before.remove(vs_before.len() - 1));
            assert(vs_before.remove(vs_before.len() - 1).to_multiset() =~= vs_before.to_multiset()
                .remove(f@));
        }
        insert_sorted(&mut out, f);
        proof {
            assert(fortune_views(out@).to_multiset().add(fortune_views(rest@).to_multiset())
                =~= out_before.to_multiset().add(vs_before.to_multiset()));
        }
    }
    proof {
        assert(fortune_views(rest@).to_multiset() =~= Multiset::<FortuneView>::empty());
        assert(fortune_views(out@).to_multiset() =~= total);
    }
    out
}

/// Scan-and-augment: to the fully drained message list add one synthetic
/// message — key 0, the fixed text, never stored — and sort the whole list
/// by text in byte-wise lexicographic order. The result is one longer than
/// what was scanned, holds exactly the scanned messages plus the synthetic
/// one, and the synthetic one is always present.
pub fn fetch_fortunes(stored: Vec<Fortune>) -> (r: Vec<Fortune>)
    ensures
        r@.len() == stored@.len() + 1,
        sorted_by_message(r@),
        fortune_views(r@).to_multiset() == fortune_views(stored@).to_multiset().insert(
            synthetic_fortune(),
        ),
        exists|i: int| 0 <= i < r@.len() && (#[trigger] r@[i])@ == synthetic_fortune(),
{
    broadcast use group_to_multiset_ensures;

    let ghost s0 = stored@;
    let mut fortunes = stored;
    let f = Fortune { id: 0, message: "Additional fortune added at request time.".to_owned() };
    proof {
        assert(f@ == synthetic_fortune());
    }
    fortunes.push(f);
    proof {
        assert(fortune_views(fortunes@) =~= fortune_views(s0).push(synthetic_fortune()));
        assert(fortune_views(fortunes@).to_multiset() =~= fortune_views(s0).to_multiset().insert(
            synthetic_fortune(),
        ));
    }
    let r = sort_fortunes(fortunes);
    proof {
        let vs = fortune_views(r@);
        assert(vs.to_multiset().count(synthetic_fortune()) > 0);
        assert(vs.contains(synthetic_fortune()));
        let i = choose|i: int| 0 <= i < vs.len() && vs[i] == synthetic_fortune();
        assert(r@[i]@ == synthetic_fortune());
    }
    r
}

} // verus!
