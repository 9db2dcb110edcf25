use neobft::executor::{Executor, Steal, Work};

type Test = Executor<String, u32, &'static str>;

fn executor() -> Test {
    Executor::new("state".into())
}

fn ready(steal: Steal<u32, String, ()>) -> (u32, String) {
    match steal {
        Steal::Ready(Work::Stateful(task, state)) => (task, state),
        steal => panic!("unexpected {steal:?}"),
    }
}

#[test]
fn latest_task_goes_first() {
    let mut executor = executor();
    for task in 1..=3 {
        assert_eq!(executor.submit_stateful(task), None);
    }
    let (task, state) = ready(executor.steal_without_state("a"));
    assert_eq!((task, state.as_str()), (3, "state"));
    let (task, state) = ready(executor.steal_with_state(state, "a"));
    assert_eq!((task, state.as_str()), (2, "state"));
    executor.release(state);
    let (task, _) = ready(executor.steal_without_state("b"));
    assert_eq!(task, 1);
}

#[test]
fn state_is_exclusive() {
    let mut executor = executor();
    executor.submit_stateful(1);
    executor.submit_stateful(2);
    let (_, state) = ready(executor.steal_without_state("a"));
    let steal: Steal<u32, String, ()> = executor.steal_without_state("b");
    assert!(matches!(steal, Steal::Park(None)));
    assert!(!executor.has_state());
    executor.release(state);
    assert!(executor.has_state());
    let (task, _) = ready(executor.steal_without_state("b"));
    assert_eq!(task, 1);
}

#[test]
fn sleepers_are_woken() {
    let mut executor = executor();
    for thread in ["a", "b"] {
        let steal: Steal<u32, String, ()> = executor.steal_without_state(thread);
        assert!(matches!(steal, Steal::Park(None)));
    }
    assert_eq!(executor.submit_stateful(1), Some("b"));
    assert_eq!(executor.submit_stateful(2), Some("a"));
    assert_eq!(executor.submit_stateful(3), None);
}

#[test]
fn holder_sleeps_with_the_state() {
    let mut executor = executor();
    executor.submit_stateful(1);
    let (_, state) = ready(executor.steal_without_state("a"));
    let steal: Steal<u32, String, ()> = executor.steal_with_state(state, "a");
    match steal {
        Steal::Park(Some(state)) => assert_eq!(state, "state"),
        steal => panic!("unexpected {steal:?}"),
    }
    assert_eq!(executor.submit_stateful(2), Some("a"));
}
