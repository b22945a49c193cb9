use crate::generator::adjacency::append_new;
use crate::generator::adjacency::connects;
use crate::generator::adjacency::face;
use crate::generator::adjacency::holders;
use crate::generator::adjacency::lemma_connects_symmetric;
use crate::generator::adjacency::lemma_holders;
use crate::generator::adjacency::lemma_support_of;
use crate::generator::adjacency::sockets_known;
use crate::generator::adjacency::support_of;
use crate::generator::adjacency::support_upto;
use crate::generator::adjacency::through_sockets;
use crate::generator::node::expand_models;
use crate::generator::node::expansion;
use crate::generator::node::faces_complete;
use crate::generator::node::axis_fits;
use crate::generator::node::lists_view;
use crate::generator::node::variants_view;
use crate::generator::node::ExpandedNodeModel;
use crate::generator::node::ModelIndex;
use crate::generator::node::NodeModel;
use crate::generator::node::Variant;
use crate::generator::socket::SocketCollection;
use crate::generator::table::table_cells;
use crate::generator::table::table_get;
use crate::generator::table::table_new;
use crate::generator::table::table_set;
use crate::generator::table::table_shape;
use crate::generator::table::SupportTable;
use crate::grid::direction::lemma_opposite_involution;
use crate::grid::direction::Cartesian2D;
use crate::grid::direction::Cartesian3D;
use crate::grid::direction::CoordinateSystem;
use crate::grid::direction::Direction;
use crate::grid::direction::DirectionSet;
use crate::grid::direction::CARTESIAN_2D_ROTATION_AXIS;
use std::collections::HashMap;
use std::collections::HashSet;
use vstd::prelude::*;

verus! {

/// Why a set of models and sockets makes no rules.
#[derive(Clone, Copy, Debug, PartialEq, Eq, Structural)]
pub enum RuleBuildError {
    /// The models give no variant at all.
    EmptyRuleSet,
    /// A model shows a socket that no connection names.
    MissingSockets,
    /// There are more variants than the adjacency table can hold.
    TooManyModels,
}

/// The most variants that rules with `faces` directions can hold.
pub open spec fn variants_fit(count: int, faces: int) -> bool {
    count * faces <= isize::MAX && count <= u32::MAX
}

/// The error that the variants and the sockets give, if they give one: the
/// first that applies of no variant, a socket without a compatibility list,
/// and too many variants.
pub open spec fn build_error(variants: Seq<Variant>, faces: int, compat: Map<u64, Seq<u64>>) -> Option<
    RuleBuildError,
> {
    if variants.len() == 0 {
        Some(RuleBuildError::EmptyRuleSet)
    } else if !sockets_known(variants, faces, compat) {
        Some(RuleBuildError::MissingSockets)
    } else if !variants_fit(variants.len() as int, faces) {
        Some(RuleBuildError::TooManyModels)
    } else {
        None
    }
}

spec fn inverse_list(map: Map<u64, Vec<Vec<usize>>>, s: u64, f: int) -> Seq<usize> {
    if map.contains_key(s) {
        map[s]@[f]@
    } else {
        Seq::empty()
    }
}

spec fn partial_holders(
    variants: Seq<Variant>,
    s: u64,
    f: int,
    n: int,
    f_cur: int,
    i_cur: int,
) -> Seq<usize> {
    let before = holders(variants, s, f, n as nat);
    let seen = (f < f_cur && variants[n].faces[f].contains(s)) || (f == f_cur
        && variants[n].faces[f].take(i_cur).contains(s));
    if seen {
        before.push(n as usize)
    } else {
        before
    }
}

spec fn inverse_partial(
    map: Map<u64, Vec<Vec<usize>>>,
    variants: Seq<Variant>,
    faces: int,
    n: int,
    f_cur: int,
    i_cur: int,
) -> bool {
    &&& forall|s: u64| map.contains_key(s) ==> (#[trigger] map[s])@.len() == faces
    &&& forall|s: u64, f: int|
        0 <= f < faces ==> #[trigger] inverse_list(map, s, f) == partial_holders(
            variants,
            s,
            f,
            n,
            f_cur,
            i_cur,
        )
}

spec fn table_done(
    table: SupportTable,
    variants: Seq<Variant>,
    compat: Map<u64, Seq<u64>>,
    faces: int,
    rows: int,
    cols: int,
) -> bool {
    &&& table_shape(table, variants.len() as int, faces)
    &&& forall|v: int, f: int|
        0 <= v < variants.len() && 0 <= f < faces && (v < rows || (v == rows && f < cols))
            ==> #[trigger] table_cells(table)[v][f] == support_of(
            variants,
            compat,
            v,
            Direction::spec_from_index(f),
        )
}

fn empty_lists(faces: usize) -> (lists: Vec<Vec<usize>>)
    ensures
        lists@.len() == faces,
        forall|f: int| 0 <= f < faces ==> (#[trigger] lists@[f])@ == Seq::<usize>::empty(),
{
    let mut lists: Vec<Vec<usize>> = Vec::new();
    let mut f: usize = 0;
    while f < faces
        invariant
            f <= faces,
            lists@.len() == f,
            forall|g: int| 0 <= g < f ==> (#[trigger] lists@[g])@ == Seq::<usize>::empty(),
        decreases faces - f,
    {
        lists.push(Vec::new());
        f += 1;
    }
    lists
}

fn all_sockets_known(models: &Vec<ExpandedNodeModel>, faces: usize, sockets: &SocketCollection) -> (known:
    bool)
    requires
        faces_complete(variants_view(models@), faces as int),
    ensures
        known == sockets_known(variants_view(models@), faces as int, sockets@),
{
    let ghost variants = variants_view(models@);
    let mut v: usize = 0;
    while v < models.len()
        invariant
            v <= models.len(),
            variants == variants_view(models@),
            faces_complete(variants, faces as int),
            forall|w: int, f: int, i: int|
                0 <= w < v && 0 <= f < faces && 0 <= i < variants[w].faces[f].len()
                    ==> sockets@.contains_key(#[trigger] variants[w].faces[f][i]),
        decreases models.len() - v,
    {
        let lists = models[v].sockets();
        assert(variants[v as int].faces == lists_view(lists@));
        assert(lists@.len() == lists_view(lists@).len());
        let mut f: usize = 0;
        while f < faces
            invariant
                v < models.len(),
                f <= faces,
                variants == variants_view(models@),
                variants[v as int].faces == lists_view(lists@),
                lists@.len() == faces,
                forall|w: int, g: int, i: int|
                    0 <= w < v && 0 <= g < faces && 0 <= i < variants[w].faces[g].len()
                        ==> sockets@.contains_key(#[trigger] variants[w].faces[g][i]),
                forall|g: int, i: int|
                    0 <= g < f && 0 <= i < variants[v as int].faces[g].len()
                        ==> sockets@.contains_key(#[trigger] variants[v as int].faces[g][i]),
            decreases faces - f,
        {
            let mut i: usize = 0;
            while i < lists[f].len()
                invariant
                    v < models.len(),
                    f < faces,
                    i <= lists@[f as int]@.len(),
                    variants == variants_view(models@),
                    variants[v as int].faces == lists_view(lists@),
                    lists@.len() == faces,
                    forall|k: int|
                        0 <= k < i ==> sockets@.contains_key(
                            #[trigger] variants[v as int].faces[f as int][k],
                        ),
                decreases lists@[f as int]@.len() - i,
            {
                if sockets.get_compatibles(lists[f][i]).is_none() {
                    assert(!sockets@.contains_key(variants[v as int].faces[f as int][i as int]));
                    return false;
                }
                i += 1;
            }
            f += 1;
        }
        v += 1;
    }
    true
}

fn build_inverse(models: &Vec<ExpandedNodeModel>, faces: usize) -> (inverse: HashMap<
    u64,
    Vec<Vec<usize>>,
>)
    requires
        faces_complete(variants_view(models@), faces as int),
    ensures
        inverse_partial(inverse@, variants_view(models@), faces as int, models@.len() as int, 0, 0),
{
    let ghost variants = variants_view(models@);
    let mut inverse: HashMap<u64, Vec<Vec<usize>>> = HashMap::new();
    let mut n: usize = 0;
    while n < models.len()
        invariant
            n <= models.len(),
            variants == variants_view(models@),
            faces_complete(variants, faces as int),
            inverse_partial(inverse@, variants, faces as int, n as int, 0, 0),
        decreases models.len() - n,
    {
        let lists = models[n].sockets();
        assert(variants[n as int].faces == lists_view(lists@));
        assert(lists@.len() == lists_view(lists@).len());
        let mut f: usize = 0;
        while f < faces
            invariant
                n < models.len(),
                f <= faces,
                variants == variants_view(models@),
                variants[n as int].faces == lists_view(lists@),
                lists@.len() == faces,
                inverse_partial(inverse@, variants, faces as int, n as int, f as int, 0),
            decreases faces - f,
        {
            let mut i: usize = 0;
            while i < lists[f].len()
                invariant
                    n < models.len(),
                    f < faces,
                    i <= lists@[f as int]@.len(),
                    variants == variants_view(models@),
                    variants[n as int].faces == lists_view(lists@),
                    lists@.len() == faces,
                    inverse_partial(inverse@, variants, faces as int, n as int, f as int, i as int),
                decreases lists@[f as int]@.len() - i,
            {
                let t = lists[f][i];
                let ghost before_map = inverse@;
                let mut entry = match inverse.remove(&t) {
                    Some(found) => found,
                    None => empty_lists(faces),
                };
                let ghost before_entry = entry@;
                let len = entry[f].len();
                let ghost shown = variants[n as int].faces[f as int];
                proof {
                    assert(shown == lists@[f as int]@);
                    assert(entry@[f as int]@ == inverse_list(before_map, t, f as int));
                    lemma_holders(variants, t, f as int, n as nat);
                    let known = holders(variants, t, f as int, n as nat);
                    if len > 0 && entry@[f as int]@[len - 1] != n {
                        if shown.take(i as int).contains(t) {
                            assert(known.push(n)[len - 1] == n);
                        }
                    }
                    if len > 0 && entry@[f as int]@[len - 1] == n {
                        if !shown.take(i as int).contains(t) {
                            assert(known.contains(known[len - 1]));
                        }
                    }
                    if len == 0 {
                        if shown.take(i as int).contains(t) {
                            assert(known.push(n).len() > 0);
                        }
                    }
                }
                if len == 0 || entry[f][len - 1] != n {
                    entry[f].push(n);
                }
                inverse.insert(t, entry);
                proof {
                    let after = inverse@;
                    assert(shown.take(i + 1).contains(t)) by {
                        assert(shown.take(i + 1)[i as int] == t);
                    }
                    assert forall|s: u64| after.contains_key(s) implies (#[trigger] after[s])@.len()
                        == faces by {
                        if s != t {
                            assert(before_map.contains_key(s));
                        }
                    }
                    assert forall|s: u64, g: int| 0 <= g < faces implies #[trigger] inverse_list(
                        after,
                        s,
                        g,
                    ) == partial_holders(variants, s, g, n as int, f as int, i + 1) by {
                        assert(inverse_list(before_map, s, g) == partial_holders(
                            variants,
                            s,
                            g,
                            n as int,
                            f as int,
                            i as int,
                        ));
                        if s != t {
                            assert(inverse_list(after, s, g) == inverse_list(before_map, s, g));
                            if g == f {
                                assert(shown.take(i + 1) =~= shown.take(i as int).push(t));
                                vstd::seq_lib::lemma_seq_contains_after_push(
                                    shown.take(i as int),
                                    t,
                                    s,
                                );
                            }
                        } else if g != f {
                            assert(after[t]@[g] == before_entry[g]);
                            assert(before_entry[g]@ == inverse_list(before_map, t, g));
                        }
                    }
                }
                i += 1;
            }
            proof {
                let shown = variants[n as int].faces[f as int];
                assert(shown.take(shown.len() as int) =~= shown);
                assert forall|s: u64, g: int| 0 <= g < faces implies #[trigger] inverse_list(
                    inverse@,
                    s,
                    g,
                ) == partial_holders(variants, s, g, n as int, f + 1, 0) by {
                    assert(inverse_list(inverse@, s, g) == partial_holders(
                        variants,
                        s,
                        g,
                        n as int,
                        f as int,
                        i as int,
                    ));
                    if g == f + 1 {
                        assert(variants[n as int].faces[g].take(0).len() == 0);
                    }
                }
            }
            f += 1;
        }
        proof {
            assert forall|s: u64, g: int| 0 <= g < faces implies #[trigger] inverse_list(
                inverse@,
                s,
                g,
            ) == partial_holders(variants, s, g, n + 1, 0, 0) by {
                assert(inverse_list(inverse@, s, g) == partial_holders(
                    variants,
                    s,
                    g,
                    n as int,
                    faces as int,
                    0,
                ));
                assert(variants[n + 1].faces[g].take(0).len() == 0);
            }
        }
        n += 1;
    }
    inverse
}

fn build_support(
    models: &Vec<ExpandedNodeModel>,
    faces: usize,
    sockets: &SocketCollection,
    inverse: &HashMap<u64, Vec<Vec<usize>>>,
    v: usize,
    direction: Direction,
) -> (list: Vec<usize>)
    requires
        v < models@.len(),
        direction.spec_index() < faces,
        direction.spec_opposite().spec_index() < faces,
        faces_complete(variants_view(models@), faces as int),
        sockets_known(variants_view(models@), faces as int, sockets@),
        inverse_partial(inverse@, variants_view(models@), faces as int, models@.len() as int, 0, 0),
    ensures
        list@ == support_of(variants_view(models@), sockets@, v as int, direction),
{
    let ghost variants = variants_view(models@);
    let ghost compat = sockets@;
    let opposite = direction.opposite().index();
    let lists = models[v].sockets();
    assert(variants[v as int].faces == lists_view(lists@));
    assert(lists@.len() == lists_view(lists@).len());
    let mine = &lists[direction.index()];
    assert(mine@ == face(variants, v as int, direction));
    let mut list: Vec<usize> = Vec::new();
    let mut unique: HashSet<usize> = HashSet::new();
    let mut i: usize = 0;
    while i < mine.len()
        invariant
            i <= mine.len(),
            v < models@.len(),
            opposite < faces,
            opposite == direction.spec_opposite().spec_index(),
            variants == variants_view(models@),
            compat == sockets@,
            mine@ == face(variants, v as int, direction),
            direction.spec_index() < faces,
            sockets_known(variants, faces as int, compat),
            inverse_partial(inverse@, variants, faces as int, models@.len() as int, 0, 0),
            list@ == support_upto(variants, compat, v as int, direction, i as nat),
            forall|x: usize| unique@.contains(x) <==> list@.contains(x),
        decreases mine.len() - i,
    {
        let ghost start_i = list@;
        assert(compat.contains_key(variants[v as int].faces[direction.spec_index()][i as int]));
        match sockets.get_compatibles(mine[i]) {
            Some(accepted) => {
                let mut j: usize = 0;
                while j < accepted.len()
                    invariant
                        j <= accepted.len(),
                        opposite < faces,
                        variants == variants_view(models@),
                        inverse_partial(
                            inverse@,
                            variants,
                            faces as int,
                            models@.len() as int,
                            0,
                            0,
                        ),
                        list@ == through_sockets(
                            start_i,
                            variants,
                            accepted@,
                            opposite as int,
                            j as nat,
                        ),
                        forall|x: usize| unique@.contains(x) <==> list@.contains(x),
                    decreases accepted.len() - j,
                {
                    let ghost start_j = list@;
                    let ghost expected = holders(
                        variants,
                        accepted@[j as int],
                        opposite as int,
                        variants.len(),
                    );
                    assert(inverse_list(inverse@, accepted@[j as int], opposite as int)
                        == expected);
                    match inverse.get(&accepted[j]) {
                        Some(found_lists) => {
                            let found = &found_lists[opposite];
                            assert(found@ == expected);
                            let mut k: usize = 0;
                            while k < found.len()
                                invariant
                                    k <= found.len(),
                                    list@ == append_new(start_j, found@.take(k as int)),
                                    forall|x: usize| unique@.contains(x) <==> list@.contains(x),
                                decreases found.len() - k,
                            {
                                let x = found[k];
                                let ghost before = list@;
                                let ghost before_unique = unique@;
                                if unique.insert(x) {
                                    list.push(x);
                                    proof {
                                        assert forall|y: usize|
                                            unique@.contains(y) <==> list@.contains(y) by {
                                            vstd::seq_lib::lemma_seq_contains_after_push(
                                                before,
                                                x,
                                                y,
                                            );
                                        }
                                    }
                                } else {
                                    assert(unique@ =~= before_unique);
                                }
                                proof {
                                    assert(found@.take(k + 1).drop_last() =~= found@.take(
                                        k as int,
                                    ));
                                    assert(found@.take(k + 1).last() == x);
                                }
                                k += 1;
                            }
                            assert(found@.take(found.len() as int) =~= found@);
                        },
                        None => {
                            assert(expected.len() == 0);
                        },
                    }
                    j += 1;
                }
            },
            None => {},
        }
        i += 1;
    }
    list
}

/// The rules of a generation: the variants of the models, and for each
/// variant and direction the variants that may stand next to it.
pub struct Rules {
    coordinate_system: CoordinateSystem,
    original_models_count: usize,
    /// The variants, in the order of their indices.
    models: Vec<ExpandedNodeModel>,
    /// `allowed_neighbours[(variant, direction)]` lists the variants that
    /// may stand next to `variant` on the side `direction`.
    allowed_neighbours: SupportTable,
}

impl Rules {
    /// The variants, in the order of their indices.
    pub closed spec fn variants(self) -> Seq<Variant> {
        variants_view(self.models@)
    }

    /// The coordinate system of the models.
    pub closed spec fn system(self) -> CoordinateSystem {
        self.coordinate_system
    }

    /// Number of models that the variants were made from.
    pub closed spec fn spec_original_models_count(self) -> int {
        self.original_models_count as int
    }

    /// The variants that may stand next to `variant` on the side `direction`.
    pub closed spec fn support(self, variant: int, direction: Direction) -> Seq<usize> {
        table_cells(self.allowed_neighbours)[variant][direction.spec_index()]
    }

    /// Whether the table has a list for each variant and direction.
    pub closed spec fn table_complete(self) -> bool {
        table_shape(
            self.allowed_neighbours,
            self.models@.len() as int,
            self.coordinate_system.spec_directions_count(),
        )
    }

    /// Number of directions.
    pub open spec fn faces(self) -> int {
        self.system().spec_directions_count()
    }

    /// The invariant of the rules: there is a variant; each variant has a
    /// face and a list of neighbours for each direction; a list names
    /// variants, each once; and a variant is in another's list on one side
    /// exactly if the other is in its own list on the opposite side.
    #[verifier::type_invariant]
    pub open spec fn wf(self) -> bool {
        &&& self.table_complete()
        &&& 0 < self.variants().len()
        &&& variants_fit(self.variants().len() as int, self.faces())
        &&& faces_complete(self.variants(), self.faces())
        &&& forall|v: int, d: Direction|
            0 <= v < self.variants().len() && self.system().has(d) ==> (#[trigger] self.support(
                v,
                d,
            )).no_duplicates()
        &&& forall|v: int, d: Direction, i: int|
            0 <= v < self.variants().len() && self.system().has(d) && 0 <= i < self.support(
                v,
                d,
            ).len() ==> (#[trigger] self.support(v, d)[i]) < self.variants().len()
        &&& forall|v: int, d: Direction, w: int|
            0 <= v < self.variants().len() && 0 <= w < self.variants().len() && self.system().has(
                d,
            ) ==> (#[trigger] self.support(v, d).contains(w as usize) <==> self.support(
                w,
                d.spec_opposite(),
            ).contains(v as usize))
    }

    /// Compiles models and sockets into rules. The variants are the models'
    /// expansion around `rotation_axis`; the list of a variant and a
    /// direction is built socket by socket and holds the variants that the
    /// variant connects to on that side.
    pub fn new<T: DirectionSet>(
        models: Vec<NodeModel<T>>,
        sockets: SocketCollection,
        rotation_axis: Direction,
    ) -> (result: Result<Rules, RuleBuildError>)
        requires
            sockets.wf(),
            axis_fits(T::system().spec_directions_count(), rotation_axis),
        ensures
            match result {
                Ok(rules) => {
                    &&& rules.wf()
                    &&& rules.system() == T::system()
                    &&& rules.spec_original_models_count() == models@.len()
                    &&& rules.variants() == expansion(
                        models@,
                        rotation_axis,
                        (4 * models@.len()) as nat,
                    )
                    &&& build_error(rules.variants(), rules.faces(), sockets@) is None
                    &&& forall|v: int, d: Direction|
                        0 <= v < rules.variants().len() && rules.system().has(d)
                            ==> #[trigger] rules.support(v, d) == support_of(
                            rules.variants(),
                            sockets@,
                            v,
                            d,
                        )
                    &&& forall|v: int, d: Direction, w: int|
                        0 <= v < rules.variants().len() && 0 <= w < rules.variants().len()
                            && rules.system().has(d) ==> (#[trigger] rules.support(v, d).contains(
                            w as usize,
                        ) <==> connects(rules.variants(), sockets@, v, d, w))
                },
                Err(error) => build_error(
                    expansion(models@, rotation_axis, (4 * models@.len()) as nat),
                    T::system().spec_directions_count(),
                    sockets@,
                ) == Some(error),
            },
    {
        let original_models_count = models.len();
        let system = T::coordinate_system();
        let faces = system.directions_count();
        let expanded = expand_models(models, rotation_axis);
        let ghost variants = variants_view(expanded@);
        let ghost compat = sockets@;
        if expanded.len() == 0 {
            return Err(RuleBuildError::EmptyRuleSet);
        }
        if !all_sockets_known(&expanded, faces, &sockets) {
            return Err(RuleBuildError::MissingSockets);
        }
        let limit: usize = (isize::MAX as usize) / faces;
        if expanded.len() > limit || expanded.len() > u32::MAX as usize {
            proof {
                if expanded.len() > limit {
                    assert(expanded.len() * faces > isize::MAX) by (nonlinear_arith)
                        requires
                            expanded.len() > limit,
                            limit == (isize::MAX as int) / (faces as int),
                            faces == 4 || faces == 6,
                    ;
                }
            }
            return Err(RuleBuildError::TooManyModels);
        }
        proof {
            assert(expanded.len() * faces <= isize::MAX) by (nonlinear_arith)
                requires
                    expanded.len() <= limit,
                    limit == (isize::MAX as int) / (faces as int),
                    faces == 4 || faces == 6,
            ;
        }
        let inverse = build_inverse(&expanded, faces);
        let mut table = table_new(expanded.len(), faces);
        let mut v: usize = 0;
        while v < expanded.len()
            invariant
                v <= expanded.len(),
                faces == system.spec_directions_count(),
                variants == variants_view(expanded@),
                compat == sockets@,
                faces_complete(variants, faces as int),
                sockets_known(variants, faces as int, compat),
                inverse_partial(inverse@, variants, faces as int, expanded@.len() as int, 0, 0),
                table_done(table, variants, compat, faces as int, v as int, 0),
            decreases expanded.len() - v,
        {
            let mut f: usize = 0;
            while f < faces
                invariant
                    v < expanded.len(),
                    f <= faces,
                    faces == system.spec_directions_count(),
                    variants == variants_view(expanded@),
                    compat == sockets@,
                    faces_complete(variants, faces as int),
                    sockets_known(variants, faces as int, compat),
                    inverse_partial(inverse@, variants, faces as int, expanded@.len() as int, 0, 0),
                    table_done(table, variants, compat, faces as int, v as int, f as int),
                decreases faces - f,
            {
                let direction = Direction::from_index(f);
                proof {
                    lemma_opposite_involution(direction);
                    assert(system.has(direction));
                }
                let list = build_support(&expanded, faces, &sockets, &inverse, v, direction);
                let ghost before = table_cells(table);
                table_set(&mut table, v, f, list);
                proof {
                    let after = table_cells(table);
                    assert forall|w: int, g: int|
                        0 <= w < variants.len() && 0 <= g < faces && (w < v || (w == v && g < f
                            + 1)) implies #[trigger] after[w][g] == support_of(
                        variants,
                        compat,
                        w,
                        Direction::spec_from_index(g),
                    ) by {
                        if w == v && g == f {
                        } else {
                            assert(after[w][g] == before[w][g]);
                        }
                    }
                    assert(table_shape(table, variants.len() as int, faces as int)) by {
                        assert forall|row: int| 0 <= row < variants.len() implies (
                        #[trigger] after[row]).len() == faces by {
                            assert(before[row].len() == faces);
                        }
                    }
                }
                f += 1;
            }
            v += 1;
        }
        proof {
            let rules = Rules {
                coordinate_system: system,
                original_models_count,
                models: expanded,
                allowed_neighbours: table,
            };
            assert forall|w: int, d: Direction|
                0 <= w < variants.len() && system.has(d) implies #[trigger] rules.support(w, d)
                == support_of(variants, compat, w, d) by {
                lemma_opposite_involution(d);
                assert(table_cells(table)[w][d.spec_index()] == support_of(
                    variants,
                    compat,
                    w,
                    Direction::spec_from_index(d.spec_index()),
                ));
            }
            assert forall|w: int, d: Direction|
                0 <= w < variants.len() && system.has(d) implies (forall|x: usize|
                #![trigger rules.support(w, d).contains(x)]
                rules.support(w, d).contains(x) <==> (x < variants.len() && connects(
                    variants,
                    compat,
                    w,
                    d,
                    x as int,
                ))) && (#[trigger] rules.support(w, d)).no_duplicates() by {
                lemma_support_of(variants, compat, w, d);
            }
            assert forall|w: int, d: Direction, i: int|
                0 <= w < variants.len() && system.has(d) && 0 <= i < rules.support(
                    w,
                    d,
                ).len() implies (#[trigger] rules.support(w, d)[i]) < variants.len() by {
                let list = rules.support(w, d);
                assert(list.contains(list[i]));
            }
            assert forall|w: int, d: Direction, x: int|
                0 <= w < variants.len() && 0 <= x < variants.len() && system.has(
                    d,
                ) implies (#[trigger] rules.support(w, d).contains(x as usize) <==> rules.support(
                x,
                d.spec_opposite(),
            ).contains(w as usize)) by {
                lemma_opposite_involution(d);
                lemma_connects_symmetric(variants, compat, w, d, x);
                assert(system.has(d.spec_opposite()));
                assert(rules.support(w, d).contains(x as usize) <==> connects(
                    variants,
                    compat,
                    w,
                    d,
                    x,
                ));
                assert(rules.support(x, d.spec_opposite()).contains(w as usize) <==> connects(
                    variants,
                    compat,
                    x,
                    d.spec_opposite(),
                    w,
                ));
            }
            assert(rules.wf());
        }
        let rules = Rules {
            coordinate_system: system,
            original_models_count,
            models: expanded,
            allowed_neighbours: table,
        };
        Ok(rules)
    }

    /// The variants that may stand next to `model_index` on the side `direction`.
    #[inline]
    pub fn supported_models(&self, model_index: ModelIndex, direction: Direction) -> (list: &Vec<
        ModelIndex,
    >)
        requires
            model_index < self.variants().len(),
            self.system().has(direction),
        ensures
            list@ == self.support(model_index as int, direction),
            self.wf(),
    {
        proof {
            use_type_invariant(self);
        }
        table_get(&self.allowed_neighbours, model_index, direction.index())
    }

    /// Whether no variant may stand next to `model_index` on the side `direction`.
    pub fn is_orphan(&self, model_index: ModelIndex, direction: Direction) -> (orphan: bool)
        requires
            model_index < self.variants().len(),
            self.system().has(direction),
        ensures
            orphan == (self.support(model_index as int, direction).len() == 0),
    {
        self.supported_models(model_index, direction).len() == 0
    }

    /// The variant with the index `model_index`.
    pub fn model(&self, model_index: ModelIndex) -> (model: &ExpandedNodeModel)
        requires
            model_index < self.variants().len(),
        ensures
            model@ == self.variants()[model_index as int],
    {
        &self.models[model_index]
    }

    /// The weight of the variant `model_index`.
    #[inline]
    pub fn weight(&self, model_index: ModelIndex) -> (weight: u32)
        requires
            model_index < self.variants().len(),
        ensures
            weight == self.variants()[model_index as int].weight,
    {
        self.models[model_index].weight()
    }

    /// Number of directions of the coordinate system.
    #[inline]
    pub fn directions_count(&self) -> (count: usize)
        ensures
            count == self.faces(),
            count == 4 || count == 6,
    {
        self.coordinate_system.directions_count()
    }

    /// The directions of the coordinate system, in the order of the faces.
    pub fn directions(&self) -> (directions: Vec<Direction>)
        ensures
            directions@.len() == self.faces(),
            forall|f: int|
                0 <= f < directions@.len() ==> #[trigger] directions@[f]
                    == Direction::spec_from_index(f),
    {
        let count = self.coordinate_system.directions_count();
        let mut directions: Vec<Direction> = Vec::new();
        let mut f: usize = 0;
        while f < count
            invariant
                f <= count,
                count <= 6,
                directions@.len() == f,
                forall|g: int|
                    0 <= g < f ==> #[trigger] directions@[g] == Direction::spec_from_index(g),
            decreases count - f,
        {
            directions.push(Direction::from_index(f));
            f += 1;
        }
        directions
    }

    /// The coordinate system of the models.
    pub fn coordinate_system(&self) -> (system: CoordinateSystem)
        ensures
            system == self.system(),
    {
        self.coordinate_system
    }

    /// Number of variants.
    #[inline]
    pub fn models_count(&self) -> (count: usize)
        ensures
            count == self.variants().len(),
            self.wf(),
    {
        proof {
            use_type_invariant(self);
        }
        self.models.len()
    }

    /// Number of models that the variants were made from.
    pub fn original_models_count(&self) -> (count: usize)
        ensures
            count == self.spec_original_models_count(),
    {
        self.original_models_count
    }
}

/// What a set of rules answers, whatever grid it was made for.
pub trait RulesTrait {
    /// The rules behind the answers.
    spec fn rules(&self) -> Rules;

    /// The variants that may stand next to `model_index` on the side `direction`.
    fn supported_models(&self, model_index: ModelIndex, direction: Direction) -> (list: &Vec<
        ModelIndex,
    >)
        requires
            model_index < self.rules().variants().len(),
            self.rules().system().has(direction),
        ensures
            list@ == self.rules().support(model_index as int, direction),
    ;

    /// The weight of the variant `model_index`.
    fn weight(&self, model_index: ModelIndex) -> (weight: u32)
        requires
            model_index < self.rules().variants().len(),
        ensures
            weight == self.rules().variants()[model_index as int].weight,
    ;

    /// The directions of the coordinate system, in the order of the faces.
    fn directions(&self) -> (directions: Vec<Direction>)
        ensures
            directions@.len() == self.rules().faces(),
            forall|f: int|
                0 <= f < directions@.len() ==> #[trigger] directions@[f]
                    == Direction::spec_from_index(f),
    ;

    /// Number of variants.
    fn models_count(&self) -> (count: usize)
        ensures
            count == self.rules().variants().len(),
    ;
}

/// Rules for a grid of two dimensions.
pub struct RulesCartesian2D {
    pub rules: Rules,
}

/// Rules for a grid of three dimensions.
pub struct RulesCartesian3D {
    pub rules: Rules,
}

/// What compiling gives: the rules' variants and lists if there is no
/// error, and else the error.
pub open spec fn compiled<T: DirectionSet>(
    result: Result<Rules, RuleBuildError>,
    models: Seq<NodeModel<T>>,
    compat: Map<u64, Seq<u64>>,
    rotation_axis: Direction,
) -> bool {
    match result {
        Ok(rules) => {
            &&& rules.wf()
            &&& rules.system() == T::system()
            &&& rules.spec_original_models_count() == models.len()
            &&& rules.variants() == expansion(models, rotation_axis, (4 * models.len()) as nat)
            &&& build_error(rules.variants(), rules.faces(), compat) is None
            &&& forall|v: int, d: Direction|
                0 <= v < rules.variants().len() && rules.system().has(d)
                    ==> #[trigger] rules.support(v, d) == support_of(rules.variants(), compat, v, d)
            &&& forall|v: int, d: Direction, w: int|
                0 <= v < rules.variants().len() && 0 <= w < rules.variants().len()
                    && rules.system().has(d) ==> (#[trigger] rules.support(v, d).contains(
                    w as usize,
                ) <==> connects(rules.variants(), compat, v, d, w))
        },
        Err(error) => build_error(
            expansion(models, rotation_axis, (4 * models.len()) as nat),
            T::system().spec_directions_count(),
            compat,
        ) == Some(error),
    }
}

impl RulesCartesian2D {
    /// Compiles models for a grid of two dimensions, which rotate around
    /// the axis that leaves the plane.
    pub fn new(models: Vec<NodeModel<Cartesian2D>>, sockets: SocketCollection) -> (result: Result<
        Self,
        RuleBuildError,
    >)
        requires
            sockets.wf(),
        ensures
            compiled(
                match result {
                    Ok(made) => Ok(made.rules),
                    Err(error) => Err(error),
                },
                models@,
                sockets@,
                CARTESIAN_2D_ROTATION_AXIS,
            ),
    {
        match Rules::new(models, sockets, CARTESIAN_2D_ROTATION_AXIS) {
            Ok(rules) => Ok(Self { rules }),
            Err(error) => Err(error),
        }
    }
}

impl RulesCartesian3D {
    /// Compiles models for a grid of three dimensions, which rotate around
    /// the y axis.
    pub fn new(models: Vec<NodeModel<Cartesian3D>>, sockets: SocketCollection) -> (result: Result<
        Self,
        RuleBuildError,
    >)
        requires
            sockets.wf(),
        ensures
            compiled(
                match result {
                    Ok(made) => Ok(made.rules),
                    Err(error) => Err(error),
                },
                models@,
                sockets@,
                Direction::YForward,
            ),
    {
        Self::with_rotation_axis(models, sockets, Direction::YForward)
    }

    /// Compiles models for a grid of three dimensions, which rotate around
    /// `rotation_axis`.
    pub fn with_rotation_axis(
        models: Vec<NodeModel<Cartesian3D>>,
        sockets: SocketCollection,
        rotation_axis: Direction,
    ) -> (result: Result<Self, RuleBuildError>)
        requires
            sockets.wf(),
        ensures
            compiled(
                match result {
                    Ok(made) => Ok(made.rules),
                    Err(error) => Err(error),
                },
                models@,
                sockets@,
                rotation_axis,
            ),
    {
        match Rules::new(models, sockets, rotation_axis) {
            Ok(rules) => Ok(Self { rules }),
            Err(error) => Err(error),
        }
    }
}

impl RulesTrait for RulesCartesian2D {
    open spec fn rules(&self) -> Rules {
        self.rules
    }

    #[inline]
    fn supported_models(&self, model_index: ModelIndex, direction: Direction) -> (list: &Vec<
        ModelIndex,
    >) {
        self.rules.supported_models(model_index, direction)
    }

    #[inline]
    fn weight(&self, model_index: ModelIndex) -> (weight: u32) {
        self.rules.weight(model_index)
    }

    #[inline]
    fn directions(&self) -> (directions: Vec<Direction>) {
        self.rules.directions()
    }

    #[inline]
    fn models_count(&self) -> (count: usize) {
        self.rules.models_count()
    }
}

impl RulesTrait for RulesCartesian3D {
    open spec fn rules(&self) -> Rules {
        self.rules
    }

    #[inline]
    fn supported_models(&self, model_index: ModelIndex, direction: Direction) -> (list: &Vec<
        ModelIndex,
    >) {
        self.rules.supported_models(model_index, direction)
    }

    #[inline]
    fn weight(&self, model_index: ModelIndex) -> (weight: u32) {
        self.rules.weight(model_index)
    }

    #[inline]
    fn directions(&self) -> (directions: Vec<Direction>) {
        self.rules.directions()
    }

    #[inline]
    fn models_count(&self) -> (count: usize) {
        self.rules.models_count()
    }
}

} // verus!

verus! {

/// The lists of neighbours are symmetric: a variant is in another's list on
/// one side exactly if the other is in its own list on the opposite side.
pub proof fn lemma_support_symmetric(rules: Rules, v: int, direction: Direction, w: int)
    requires
        rules.wf(),
        0 <= v < rules.variants().len(),
        0 <= w < rules.variants().len(),
        rules.system().has(direction),
    ensures
        rules.support(v, direction).contains(w as usize) <==> rules.support(
            w,
            direction.spec_opposite(),
        ).contains(v as usize),
{
}

} // verus!
