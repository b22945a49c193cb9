use crate::generator::node::Variant;
use crate::generator::socket::compatible;
use crate::generator::socket::symmetric;
use crate::grid::direction::lemma_opposite_involution;
use crate::grid::direction::Direction;
use vstd::prelude::*;

verus! {

/// The sockets that variant `v` shows on the face towards `direction`.
pub open spec fn face(variants: Seq<Variant>, v: int, direction: Direction) -> Seq<u64> {
    variants[v].faces[direction.spec_index()]
}

/// Whether every socket on a face of a variant has a compatibility list.
pub open spec fn sockets_known(variants: Seq<Variant>, faces: int, compat: Map<u64, Seq<u64>>) -> bool {
    forall|v: int, f: int, i: int|
        0 <= v < variants.len() && 0 <= f < faces && 0 <= i < variants[v].faces[f].len()
            ==> compat.contains_key(#[trigger] variants[v].faces[f][i])
}

/// Whether variant `w` may stand next to variant `v` on the side
/// `direction`: a socket of `v` on that side accepts a socket that `w` shows
/// on the opposite side.
pub open spec fn connects(
    variants: Seq<Variant>,
    compat: Map<u64, Seq<u64>>,
    v: int,
    direction: Direction,
    w: int,
) -> bool {
    exists|i: int, j: int|
        0 <= i < face(variants, v, direction).len() && 0 <= j < face(
            variants,
            w,
            direction.spec_opposite(),
        ).len() && compatible(
            compat,
            #[trigger] face(variants, v, direction)[i],
            #[trigger] face(variants, w, direction.spec_opposite())[j],
        )
}

/// The variants among the first `n` that show the socket `s` on the face
/// `face`, in rising order.
pub open spec fn holders(variants: Seq<Variant>, s: u64, face: int, n: nat) -> Seq<usize>
    decreases n,
{
    if n == 0 {
        Seq::empty()
    } else {
        let before = holders(variants, s, face, (n - 1) as nat);
        if variants[n - 1].faces[face].contains(s) {
            before.push((n - 1) as usize)
        } else {
            before
        }
    }
}

/// `list` followed by those of `items` that it does not hold yet, each once.
pub open spec fn append_new(list: Seq<usize>, items: Seq<usize>) -> Seq<usize>
    decreases items.len(),
{
    if items.len() == 0 {
        list
    } else {
        let before = append_new(list, items.drop_last());
        if before.contains(items.last()) {
            before
        } else {
            before.push(items.last())
        }
    }
}

/// `list` after the first `count` sockets of `accepted` were walked: for
/// each, the variants that show it on the face `face` were appended, unless
/// the list held them.
pub open spec fn through_sockets(
    list: Seq<usize>,
    variants: Seq<Variant>,
    accepted: Seq<u64>,
    face: int,
    count: nat,
) -> Seq<usize>
    decreases count,
{
    if count == 0 {
        list
    } else {
        append_new(
            through_sockets(list, variants, accepted, face, (count - 1) as nat),
            holders(variants, accepted[count - 1], face, variants.len()),
        )
    }
}

/// The list of the variants that may stand next to `v` on the side
/// `direction`, after the first `count` sockets of `v` on that side were
/// walked: for each socket, in the order of the face, the sockets that it
/// accepts, in the order of its compatibility list, and for each of those
/// the variants that show it on the opposite side, in rising order. A
/// variant is listed where it is first met.
pub open spec fn support_upto(
    variants: Seq<Variant>,
    compat: Map<u64, Seq<u64>>,
    v: int,
    direction: Direction,
    count: nat,
) -> Seq<usize>
    decreases count,
{
    if count == 0 {
        Seq::empty()
    } else {
        let s = face(variants, v, direction)[count - 1];
        through_sockets(
            support_upto(variants, compat, v, direction, (count - 1) as nat),
            variants,
            compat[s],
            direction.spec_opposite().spec_index(),
            compat[s].len(),
        )
    }
}

/// The list of the variants that may stand next to `v` on the side `direction`.
pub open spec fn support_of(
    variants: Seq<Variant>,
    compat: Map<u64, Seq<u64>>,
    v: int,
    direction: Direction,
) -> Seq<usize> {
    support_upto(variants, compat, v, direction, face(variants, v, direction).len())
}

/// What `holders` lists, and that it lists nothing twice.
pub proof fn lemma_holders(variants: Seq<Variant>, s: u64, face: int, n: nat)
    requires
        n <= variants.len(),
        n <= usize::MAX,
    ensures
        forall|w: usize|
            #![trigger holders(variants, s, face, n).contains(w)]
            holders(variants, s, face, n).contains(w) <==> (w < n && variants[w as int].faces[face].contains(
                s,
            )),
        holders(variants, s, face, n).no_duplicates(),
    decreases n,
{
    if n > 0 {
        let before = holders(variants, s, face, (n - 1) as nat);
        lemma_holders(variants, s, face, (n - 1) as nat);
        let last = (n - 1) as usize;
        if variants[n - 1].faces[face].contains(s) {
            assert forall|w: usize|
                before.push(last).contains(w) <==> (w < n && variants[w as int].faces[face].contains(
                    s,
                )) by {
                vstd::seq_lib::lemma_seq_contains_after_push(before, last, w);
            }
            lemma_push_new(before, last);
        }
    }
}

/// A list without duplicates stays so when an item that it lacks is put at its end.
pub proof fn lemma_push_new(list: Seq<usize>, item: usize)
    requires
        list.no_duplicates(),
        !list.contains(item),
    ensures
        list.push(item).no_duplicates(),
{
    let longer = list.push(item);
    assert forall|i: int, j: int|
        0 <= i < longer.len() && 0 <= j < longer.len() && i != j implies longer[i] != longer[j] by {
        if i < list.len() && j < list.len() {
        } else if i < list.len() {
            assert(list.contains(list[i]));
        } else {
            assert(list.contains(list[j]));
        }
    }
}

/// What `append_new` lists, and that it adds no duplicate.
pub proof fn lemma_append_new(list: Seq<usize>, items: Seq<usize>)
    ensures
        forall|x: usize|
            #![trigger append_new(list, items).contains(x)]
            append_new(list, items).contains(x) <==> (list.contains(x) || items.contains(x)),
        list.no_duplicates() ==> append_new(list, items).no_duplicates(),
    decreases items.len(),
{
    if items.len() > 0 {
        let init = items.drop_last();
        let last = items.last();
        let before = append_new(list, init);
        lemma_append_new(list, init);
        assert forall|x: usize| items.contains(x) <==> (init.contains(x) || x == last) by {
            if items.contains(x) {
                let i = choose|i: int| 0 <= i < items.len() && items[i] == x;
                if i < init.len() {
                    assert(init[i] == x);
                }
            }
            if init.contains(x) {
                let i = choose|i: int| 0 <= i < init.len() && init[i] == x;
                assert(items[i] == x);
            }
            assert(items[items.len() - 1] == last);
        }
        if !before.contains(last) {
            assert forall|x: usize|
                before.push(last).contains(x) <==> (list.contains(x) || items.contains(x)) by {
                vstd::seq_lib::lemma_seq_contains_after_push(before, last, x);
            }
            if list.no_duplicates() {
                lemma_push_new(before, last);
            }
        }
    }
}

/// What `through_sockets` lists, and that it adds no duplicate.
pub proof fn lemma_through_sockets(
    list: Seq<usize>,
    variants: Seq<Variant>,
    accepted: Seq<u64>,
    face: int,
    count: nat,
)
    requires
        count <= accepted.len(),
        variants.len() <= usize::MAX,
    ensures
        forall|x: usize|
            #![trigger through_sockets(list, variants, accepted, face, count).contains(x)]
            through_sockets(list, variants, accepted, face, count).contains(x) <==> (list.contains(
                x,
            ) || exists|j: int|
                0 <= j < count && x < variants.len() && variants[x as int].faces[face].contains(
                    #[trigger] accepted[j],
                )),
        list.no_duplicates() ==> through_sockets(
            list,
            variants,
            accepted,
            face,
            count,
        ).no_duplicates(),
    decreases count,
{
    if count > 0 {
        let before = through_sockets(list, variants, accepted, face, (count - 1) as nat);
        let s = accepted[count - 1];
        let found = holders(variants, s, face, variants.len());
        lemma_through_sockets(list, variants, accepted, face, (count - 1) as nat);
        lemma_holders(variants, s, face, variants.len());
        lemma_append_new(before, found);
        assert forall|x: usize|
            append_new(before, found).contains(x) <==> (list.contains(x) || exists|j: int|
                0 <= j < count && x < variants.len() && variants[x as int].faces[face].contains(
                    #[trigger] accepted[j],
                )) by {
            if found.contains(x) {
                assert(x < variants.len() && variants[x as int].faces[face].contains(
                    accepted[count - 1],
                ));
            }
            if exists|j: int|
                0 <= j < count && x < variants.len() && variants[x as int].faces[face].contains(
                    #[trigger] accepted[j],
                ) {
                let j = choose|j: int|
                    0 <= j < count && x < variants.len() && variants[x as int].faces[face].contains(
                        #[trigger] accepted[j],
                    );
                if j < count - 1 {
                    assert(before.contains(x));
                } else {
                    assert(found.contains(x));
                }
            }
        }
    }
}

/// The variants that `support_upto` lists are those that a socket of `v`,
/// among the first `count` on the side, connects `v` to; none is listed twice.
pub proof fn lemma_support_upto(
    variants: Seq<Variant>,
    compat: Map<u64, Seq<u64>>,
    v: int,
    direction: Direction,
    count: nat,
)
    requires
        0 <= v < variants.len(),
        variants.len() <= usize::MAX,
        count <= face(variants, v, direction).len(),
        forall|i: int|
            0 <= i < face(variants, v, direction).len() ==> compat.contains_key(
                #[trigger] face(variants, v, direction)[i],
            ),
    ensures
        forall|x: usize|
            #![trigger support_upto(variants, compat, v, direction, count).contains(x)]
            support_upto(variants, compat, v, direction, count).contains(x) <==> (x
                < variants.len() && exists|i: int, j: int|
                0 <= i < count && 0 <= j < face(
                    variants,
                    x as int,
                    direction.spec_opposite(),
                ).len() && compatible(
                    compat,
                    #[trigger] face(variants, v, direction)[i],
                    #[trigger] face(variants, x as int, direction.spec_opposite())[j],
                )),
        support_upto(variants, compat, v, direction, count).no_duplicates(),
    decreases count,
{
    let opposite = direction.spec_opposite();
    let mine = face(variants, v, direction);
    if count > 0 {
        let before = support_upto(variants, compat, v, direction, (count - 1) as nat);
        let s = mine[count - 1];
        let accepted = compat[s];
        lemma_support_upto(variants, compat, v, direction, (count - 1) as nat);
        lemma_through_sockets(before, variants, accepted, opposite.spec_index(), accepted.len());
        let after = support_upto(variants, compat, v, direction, count);
        assert forall|x: usize|
            after.contains(x) <==> (x < variants.len() && exists|i: int, j: int|
                0 <= i < count && 0 <= j < face(variants, x as int, opposite).len() && compatible(
                    compat,
                    #[trigger] mine[i],
                    #[trigger] face(variants, x as int, opposite)[j],
                )) by {
            let theirs = face(variants, x as int, opposite);
            if after.contains(x) {
                if before.contains(x) {
                    let (i, j) = choose|i: int, j: int|
                        0 <= i < count - 1 && 0 <= j < theirs.len() && compatible(
                            compat,
                            #[trigger] mine[i],
                            #[trigger] theirs[j],
                        );
                    assert(0 <= i < count && compatible(compat, mine[i], theirs[j]));
                } else {
                    let k = choose|k: int|
                        0 <= k < accepted.len() && x < variants.len()
                            && variants[x as int].faces[opposite.spec_index()].contains(
                            #[trigger] accepted[k],
                        );
                    let j = choose|j: int| 0 <= j < theirs.len() && theirs[j] == accepted[k];
                    assert(accepted.contains(accepted[k]));
                    assert(compatible(compat, mine[count - 1], theirs[j]));
                }
            }
            if x < variants.len() && exists|i: int, j: int|
                0 <= i < count && 0 <= j < theirs.len() && compatible(
                    compat,
                    #[trigger] mine[i],
                    #[trigger] theirs[j],
                ) {
                let (i, j) = choose|i: int, j: int|
                    0 <= i < count && 0 <= j < theirs.len() && compatible(
                        compat,
                        #[trigger] mine[i],
                        #[trigger] theirs[j],
                    );
                if i < count - 1 {
                    assert(before.contains(x));
                } else {
                    let k = choose|k: int| 0 <= k < accepted.len() && accepted[k] == theirs[j];
                    assert(theirs.contains(accepted[k]));
                    assert(after.contains(x));
                }
            }
        }
    }
}

/// The list of a variant and a direction holds exactly the variants that
/// the variant connects to on that side, each once.
pub proof fn lemma_support_of(
    variants: Seq<Variant>,
    compat: Map<u64, Seq<u64>>,
    v: int,
    direction: Direction,
)
    requires
        0 <= v < variants.len(),
        variants.len() <= usize::MAX,
        forall|i: int|
            0 <= i < face(variants, v, direction).len() ==> compat.contains_key(
                #[trigger] face(variants, v, direction)[i],
            ),
    ensures
        forall|x: usize|
            #![trigger support_of(variants, compat, v, direction).contains(x)]
            support_of(variants, compat, v, direction).contains(x) <==> (x < variants.len()
                && connects(variants, compat, v, direction, x as int)),
        support_of(variants, compat, v, direction).no_duplicates(),
{
    lemma_support_upto(variants, compat, v, direction, face(variants, v, direction).len());
}

/// Where compatibility between sockets goes both ways, so does the
/// connection between variants: `w` may stand next to `v` on one side
/// exactly if `v` may stand next to `w` on the opposite side.
pub proof fn lemma_connects_symmetric(
    variants: Seq<Variant>,
    compat: Map<u64, Seq<u64>>,
    v: int,
    direction: Direction,
    w: int,
)
    requires
        symmetric(compat),
    ensures
        connects(variants, compat, v, direction, w) == connects(
            variants,
            compat,
            w,
            direction.spec_opposite(),
            v,
        ),
{
    lemma_opposite_involution(direction);
    let opposite = direction.spec_opposite();
    let mine = face(variants, v, direction);
    let theirs = face(variants, w, opposite);
    if connects(variants, compat, v, direction, w) {
        let (i, j) = choose|i: int, j: int|
            0 <= i < mine.len() && 0 <= j < theirs.len() && compatible(
                compat,
                #[trigger] mine[i],
                #[trigger] theirs[j],
            );
        assert(compatible(compat, theirs[j], mine[i]));
    }
    if connects(variants, compat, w, opposite, v) {
        let (j, i) = choose|j: int, i: int|
            0 <= j < theirs.len() && 0 <= i < mine.len() && compatible(
                compat,
                #[trigger] theirs[j],
                #[trigger] mine[i],
            );
        assert(compatible(compat, mine[i], theirs[j]));
    }
}

} // verus!
