use ghx_proc_gen::generator::builder::GeneratorBuilder;
use ghx_proc_gen::generator::node::SocketsCartesian2D;
use ghx_proc_gen::generator::observer::GenerationStatus;
use ghx_proc_gen::generator::observer::GenerationUpdate;
use ghx_proc_gen::generator::observer::QueuedObserver;
use ghx_proc_gen::generator::observer::QueuedStatefulObserver;
use ghx_proc_gen::generator::rng::RngMode;
use ghx_proc_gen::generator::rules::Rules;
use ghx_proc_gen::generator::rules::RulesCartesian2D;
use ghx_proc_gen::generator::socket::Socket;
use ghx_proc_gen::generator::socket::SocketCollection;
use ghx_proc_gen::generator::Generator;
use ghx_proc_gen::grid::GridDefinition;

fn chain_rules(length: usize) -> Rules {
    let mut sockets = SocketCollection::new();
    let s: Vec<Socket> = (0..length).map(|_| sockets.create()).collect();
    for i in 0..length {
        sockets.add_connection(s[i], vec![s[i]]);
        if i + 1 < length {
            sockets.add_connection(s[i], vec![s[i + 1]]);
        }
    }
    let models = s.iter().map(|socket| SocketsCartesian2D::Mono(*socket).new_model()).collect();
    RulesCartesian2D::new(models, sockets).unwrap().rules
}

fn chain_generator(seed: u64) -> Generator {
    GeneratorBuilder::new()
        .with_rules(chain_rules(6))
        .with_grid(GridDefinition::new_cartesian_2d(8, 8, false))
        .with_rng(RngMode::Seeded(seed))
        .with_max_retry_count(100)
        .build()
        .unwrap()
}

fn odd_loop_generator(retries: u32) -> Generator {
    let mut sockets = SocketCollection::new();
    let a = sockets.create();
    let b = sockets.create();
    sockets.add_connection(a, vec![b]);
    let models =
        vec![SocketsCartesian2D::Mono(a).new_model(), SocketsCartesian2D::Mono(b).new_model()];
    let rules = RulesCartesian2D::new(models, sockets).unwrap().rules;
    GeneratorBuilder::new()
        .with_rules(rules)
        .with_grid(GridDefinition::new_cartesian_2d(3, 1, false).with_loops(true, false, false))
        .with_rng(RngMode::Seeded(1))
        .with_max_retry_count(retries)
        .build()
        .unwrap()
}

#[test]
fn two_observers_see_the_same_events() {
    let mut generator = chain_generator(12);
    let mut first = generator.subscribe();
    let mut second = QueuedObserver::new(&generator);
    generator.generate().unwrap();
    let seen = first.dequeue_all(&generator);
    assert_eq!(seen, second.dequeue_all(&generator));
    assert_eq!(&seen, generator.event_log());
    assert!(!seen.is_empty());
    assert!(first.dequeue_all(&generator).is_empty());
}

#[test]
fn a_late_observer_sees_only_what_comes_after() {
    let mut generator = chain_generator(5);
    let mut early = QueuedObserver::new(&generator);
    for _ in 0..3 {
        assert_eq!(generator.step(), Ok(GenerationStatus::Ongoing));
    }
    let before = generator.event_log().len();
    assert!(before >= 3);
    let mut late = generator.subscribe();
    generator.generate().unwrap();
    let all = early.dequeue_all(&generator);
    let tail = late.dequeue_all(&generator);
    assert_eq!(all.len(), before + tail.len());
    assert_eq!(&all[before..], &tail[..]);
}

#[test]
fn an_observer_that_does_not_read_loses_nothing() {
    let mut generator = chain_generator(3);
    let mut lazy = generator.subscribe();
    let mut eager = generator.subscribe();
    let mut gathered = Vec::new();
    loop {
        let status = generator.step().unwrap();
        gathered.extend(eager.dequeue_all(&generator));
        if status == GenerationStatus::Done {
            break;
        }
    }
    assert_eq!(lazy.dequeue_all(&generator), gathered);
}

#[test]
fn events_come_one_by_one() {
    let mut generator = chain_generator(21);
    let mut observer = generator.subscribe();
    assert_eq!(observer.dequeue_next(&generator), None);
    generator.generate().unwrap();
    let mut seen = Vec::new();
    while let Some(event) = observer.dequeue_next(&generator) {
        seen.push(event);
    }
    assert_eq!(&seen, generator.event_log());
    assert_eq!(observer.dequeue_next(&generator), None);
}

#[test]
fn events_tell_of_retries_and_of_the_failure() {
    let mut generator = odd_loop_generator(2);
    let mut observer = generator.subscribe();
    let error = generator.generate().unwrap_err();
    let events = observer.dequeue_all(&generator);
    let marks: Vec<GenerationUpdate> = events
        .iter()
        .filter(|event| !matches!(event, GenerationUpdate::Generated { .. }))
        .cloned()
        .collect();
    assert_eq!(
        marks,
        vec![
            GenerationUpdate::Reinitializing(1),
            GenerationUpdate::Reinitializing(2),
            GenerationUpdate::Failed(error.node_index),
        ]
    );
}

#[test]
fn a_stateful_observer_keeps_the_grid() {
    let mut generator = chain_generator(30);
    let mut observer = QueuedStatefulObserver::new(&generator);
    assert_eq!(observer.grid_data().len(), 64);
    assert!(observer.grid_data().iter().all(|node| node.is_none()));
    generator.generate().unwrap();
    assert!(observer.grid_data().iter().all(|node| node.is_none()));
    observer.update(&generator);
    for cell in 0..64 {
        let (_, node) = generator.node(cell).unwrap();
        assert_eq!(observer.grid_data()[cell], Some(node));
    }
    observer.update(&generator);
    assert_eq!(observer.grid_data()[63].unwrap().node_index, 63);
}

#[test]
fn a_stateful_observer_forgets_on_a_new_start() {
    let mut generator = odd_loop_generator(1);
    let mut observer = QueuedStatefulObserver::new(&generator);
    // the first step meets the contradiction and starts anew
    assert_eq!(generator.step(), Ok(GenerationStatus::Ongoing));
    let first = observer.update_once(&generator);
    assert!(matches!(first, Some(GenerationUpdate::Generated { .. })));
    assert_eq!(observer.grid_data().iter().filter(|node| node.is_some()).count(), 1);
    observer.update(&generator);
    assert!(observer.grid_data().iter().all(|node| node.is_none()));
    assert_eq!(observer.update_once(&generator), None);
}
