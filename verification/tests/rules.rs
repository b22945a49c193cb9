use ghx_proc_gen::generator::node::NodeModel;
use ghx_proc_gen::generator::node::SocketsCartesian2D;
use ghx_proc_gen::generator::node::SocketsCartesian3D;
use ghx_proc_gen::generator::node::WEIGHT_UNIT;
use ghx_proc_gen::generator::rotation::NodeRotation;
use ghx_proc_gen::generator::rules::RuleBuildError;
use ghx_proc_gen::generator::rules::Rules;
use ghx_proc_gen::generator::rules::RulesCartesian2D;
use ghx_proc_gen::generator::rules::RulesCartesian3D;
use ghx_proc_gen::generator::rules::RulesTrait;
use ghx_proc_gen::generator::socket::Socket;
use ghx_proc_gen::generator::socket::SocketCollection;
use ghx_proc_gen::grid::direction::Cartesian2D;
use ghx_proc_gen::grid::direction::CoordinateSystem;
use ghx_proc_gen::grid::direction::Direction;

const EAST: Direction = Direction::XForward;
const NORTH: Direction = Direction::YForward;
const WEST: Direction = Direction::XBackward;
const SOUTH: Direction = Direction::YBackward;

fn terrain_rules() -> Rules {
    let mut sockets = SocketCollection::new();
    let s: Vec<Socket> = (0..5).map(|_| sockets.create()).collect();
    for i in 0..5 {
        sockets.add_connection(s[i], vec![s[i]]);
        if i + 1 < 5 {
            sockets.add_connection(s[i], vec![s[i + 1]]);
        }
    }
    let models = s.iter().map(|socket| SocketsCartesian2D::Mono(*socket).new_model()).collect();
    RulesCartesian2D::new(models, sockets).unwrap().rules
}

fn check_symmetry(rules: &Rules) {
    for v in 0..rules.models_count() {
        for direction in rules.directions() {
            for w in 0..rules.models_count() {
                let forth = rules.supported_models(v, direction).contains(&w);
                let back = rules.supported_models(w, direction.opposite()).contains(&v);
                assert_eq!(forth, back);
            }
        }
    }
}

#[test]
fn rules_of_a_chain_of_terrains() {
    let rules = terrain_rules();
    assert_eq!(rules.models_count(), 5);
    assert_eq!(rules.original_models_count(), 5);
    assert_eq!(rules.directions_count(), 4);
    assert_eq!(rules.coordinate_system(), CoordinateSystem::Cartesian2D);
    assert_eq!(rules.directions(), vec![EAST, NORTH, WEST, SOUTH]);
    for direction in rules.directions() {
        // own socket first, then the sockets in the order of their connections
        assert_eq!(rules.supported_models(0, direction), &vec![0, 1]);
        assert_eq!(rules.supported_models(1, direction), &vec![0, 1, 2]);
        assert_eq!(rules.supported_models(2, direction), &vec![1, 2, 3]);
        assert_eq!(rules.supported_models(4, direction), &vec![3, 4]);
        assert!(!rules.is_orphan(0, direction));
    }
    assert_eq!(rules.weight(3), WEIGHT_UNIT);
    assert_eq!(rules.model(3).original_index(), 3);
    check_symmetry(&rules);
}

#[test]
fn the_lists_follow_the_order_of_the_compatibility_lists() {
    let mut sockets = SocketCollection::new();
    let a = sockets.create();
    let b = sockets.create();
    let c = sockets.create();
    // a accepts c before b
    sockets.add_connection(a, vec![c, b]);
    let models = vec![
        SocketsCartesian2D::Mono(a).new_model(),
        SocketsCartesian2D::Mono(b).new_model(),
        SocketsCartesian2D::Mono(c).new_model(),
        SocketsCartesian2D::Mono(c).new_model(),
    ];
    let rules = RulesCartesian2D::new(models, sockets).unwrap().rules;
    assert_eq!(rules.supported_models(0, EAST), &vec![2, 3, 1]);
    assert_eq!(rules.supported_models(1, EAST), &vec![0]);
    assert_eq!(rules.supported_models(2, WEST), &vec![0]);
    check_symmetry(&rules);
}

#[test]
fn a_variant_is_listed_once() {
    let mut sockets = SocketCollection::new();
    let a = sockets.create();
    let b = sockets.create();
    let c = sockets.create();
    sockets.add_connection(a, vec![b, c]);
    // the second model shows both b and c to the west, and b twice
    let models = vec![
        SocketsCartesian2D::Mono(a).new_model(),
        SocketsCartesian2D::Multiple {
            x_pos: vec![b],
            x_neg: vec![b, c, b],
            y_pos: vec![b],
            y_neg: vec![b],
        }
        .new_model(),
    ];
    let rules = RulesCartesian2D::new(models, sockets).unwrap().rules;
    assert_eq!(rules.supported_models(0, EAST), &vec![1]);
    assert_eq!(rules.supported_models(1, WEST), &vec![0]);
    assert_eq!(rules.supported_models(1, EAST), &vec![0]);
    check_symmetry(&rules);
}

#[test]
fn no_model_gives_no_rules() {
    let models: Vec<NodeModel<Cartesian2D>> = Vec::new();
    let result = RulesCartesian2D::new(models, SocketCollection::new());
    assert!(matches!(result, Err(RuleBuildError::EmptyRuleSet)));
}

#[test]
fn a_socket_without_connection_is_missing() {
    let mut sockets = SocketCollection::new();
    let a = sockets.create();
    let b = sockets.create();
    sockets.add_connection(a, vec![a]);
    let models = vec![
        SocketsCartesian2D::Mono(a).new_model(),
        SocketsCartesian2D::Mono(b).new_model(),
    ];
    let result = RulesCartesian2D::new(models, sockets);
    assert!(matches!(result, Err(RuleBuildError::MissingSockets)));
}

#[test]
fn no_model_comes_before_a_missing_socket() {
    let mut sockets = SocketCollection::new();
    let _unused = sockets.create();
    let models: Vec<NodeModel<Cartesian2D>> = Vec::new();
    let result = Rules::new(models, sockets, Direction::ZForward);
    assert!(matches!(result, Err(RuleBuildError::EmptyRuleSet)));
}

fn one_model_with_all_rotations(east_accepts_west: bool) -> Rules {
    let mut sockets = SocketCollection::new();
    let n = sockets.create();
    let e = sockets.create();
    let s = sockets.create();
    let w = sockets.create();
    sockets.add_connection(n, vec![s]);
    if east_accepts_west {
        sockets.add_connection(e, vec![w]);
    } else {
        sockets.add_connection(e, vec![e]).add_connection(w, vec![w]);
    }
    let models = vec![SocketsCartesian2D::Simple { x_pos: e, x_neg: w, y_pos: n, y_neg: s }
        .new_model()
        .with_all_rotations()];
    RulesCartesian2D::new(models, sockets).unwrap().rules
}

#[test]
fn a_model_with_all_rotations_gives_four_variants() {
    let rules = one_model_with_all_rotations(true);
    assert_eq!(rules.models_count(), 4);
    assert_eq!(rules.original_models_count(), 1);
    for v in 0..4 {
        assert_eq!(rules.model(v).original_index(), 0);
        assert_eq!(rules.model(v).rotation(), NodeRotation::from_index(v as u8));
    }
    check_symmetry(&rules);
}

#[test]
fn the_unrotated_variant_accepts_itself_to_the_east_if_east_accepts_west() {
    let with = one_model_with_all_rotations(true);
    assert!(with.supported_models(0, EAST).contains(&0));
    let without = one_model_with_all_rotations(false);
    assert!(!without.supported_models(0, EAST).contains(&0));
    check_symmetry(&without);
}

#[test]
fn a_variant_without_neighbours_is_an_orphan() {
    let mut sockets = SocketCollection::new();
    let a = sockets.create();
    let b = sockets.create();
    let edge = sockets.create();
    sockets.add_connection(a, vec![b]).add_connection(edge, vec![edge]);
    // the first model shows to the west a socket that nobody shows to the east
    let models = vec![
        SocketsCartesian2D::Simple { x_pos: a, x_neg: edge, y_pos: a, y_neg: a }.new_model(),
        SocketsCartesian2D::Mono(b).new_model(),
    ];
    let rules = RulesCartesian2D::new(models, sockets).unwrap().rules;
    assert!(rules.is_orphan(0, WEST));
    assert!(!rules.is_orphan(0, EAST));
    assert_eq!(rules.supported_models(0, WEST), &Vec::<usize>::new());
    check_symmetry(&rules);
}

#[test]
fn rules_of_three_dimensions_have_six_directions() {
    let mut sockets = SocketCollection::new();
    let side = sockets.create();
    let top = sockets.create();
    let bottom = sockets.create();
    sockets.add_connection(side, vec![side]).add_rotated_connection(top, vec![bottom]);
    let models = vec![SocketsCartesian3D::Simple {
        x_pos: side,
        x_neg: side,
        z_pos: side,
        z_neg: side,
        y_pos: top,
        y_neg: bottom,
    }
    .new_model()
    .with_all_rotations()
    .with_weight(3)];
    let made = RulesCartesian3D::new(models, sockets).unwrap();
    assert_eq!(made.models_count(), 4);
    assert_eq!(made.directions().len(), 6);
    assert_eq!(made.weight(2), 3);
    for v in 0..4 {
        assert_eq!(made.supported_models(v, Direction::YForward), &vec![0, 1, 2, 3]);
        assert_eq!(made.supported_models(v, Direction::ZForward), &vec![0, 1, 2, 3]);
    }
    check_symmetry(&made.rules);
}

#[test]
fn the_tops_of_rotated_models_fit_only_as_connected() {
    let mut sockets = SocketCollection::new();
    let side = sockets.create();
    let top = sockets.create();
    let bottom = sockets.create();
    // without rotated connection: a top fits the bottom of the same rotation only
    sockets.add_connection(side, vec![side]);
    for turns in 0..4u8 {
        let rotation = NodeRotation::from_index(turns);
        sockets.add_connection(top.rotated(rotation), vec![bottom.rotated(rotation)]);
    }
    let models = vec![SocketsCartesian3D::Simple {
        x_pos: side,
        x_neg: side,
        z_pos: side,
        z_neg: side,
        y_pos: top,
        y_neg: bottom,
    }
    .new_model()
    .with_all_rotations()];
    let rules = RulesCartesian3D::with_rotation_axis(models, sockets, Direction::YForward)
        .unwrap()
        .rules;
    for v in 0..4 {
        assert_eq!(rules.supported_models(v, Direction::YForward), &vec![v]);
        assert_eq!(rules.supported_models(v, Direction::YBackward), &vec![v]);
    }
}
