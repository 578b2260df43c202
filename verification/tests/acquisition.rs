use lock_order::chain::{AcquisitionResult, Chain, Progress};
use lock_order::request::{build, LockRequest, ReadWrite, RequestSet};
use lock_order::resolve::{locks, resolve, LocksError};
use std::cell::{Cell, RefCell};
use std::rc::Rc;

/// A guard that counts its release.
#[derive(Debug)]
struct Guard {
    name: String,
    mode: ReadWrite,
    released: Rc<Cell<usize>>,
}

impl Drop for Guard {
    fn drop(&mut self) {
        self.released.set(self.released.get() + 1);
    }
}

/// A registry of locks that records what it is asked for, and fails for the
/// names it was told to fail for.
struct Registry {
    asked: RefCell<Vec<(String, ReadWrite)>>,
    released: Rc<Cell<usize>>,
    failing: Vec<&'static str>,
}

impl Registry {
    fn new(failing: &[&'static str]) -> Registry {
        Registry {
            asked: RefCell::new(Vec::new()),
            released: Rc::new(Cell::new(0)),
            failing: failing.to_vec(),
        }
    }

    fn acquire(&self, request: &LockRequest) -> Result<Guard, String> {
        self.asked.borrow_mut().push((request.name.clone(), request.mode));
        if self.failing.contains(&request.name.as_str()) {
            Err(format!("{} is poisoned", request.name))
        } else {
            Ok(Guard {
                name: request.name.clone(),
                mode: request.mode,
                released: self.released.clone(),
            })
        }
    }

    fn asked(&self) -> Vec<(String, ReadWrite)> {
        self.asked.borrow().clone()
    }
}

fn requests(items: &[(&str, ReadWrite)]) -> Vec<LockRequest> {
    items.iter().map(|(name, mode)| LockRequest::new(name, *mode)).collect()
}

fn set(items: &[(&str, ReadWrite)]) -> RequestSet {
    build(&requests(items)).unwrap()
}

fn asked(items: &[(&str, ReadWrite)]) -> Vec<(String, ReadWrite)> {
    items.iter().map(|(name, mode)| (name.to_string(), *mode)).collect()
}

#[test]
fn one_read_lock_gives_a_bundle_of_one_guard() {
    let registry = Registry::new(&[]);
    let bundle =
        locks(&requests(&[("accounts", ReadWrite::Read)]), |r: &LockRequest| registry.acquire(r))
            .unwrap();
    assert_eq!(bundle.len(), 1);
    assert_eq!(bundle.request_set().as_slice(), &[LockRequest::new("accounts", ReadWrite::Read)][..]);
    let guard = bundle.get("accounts").unwrap();
    assert_eq!(guard.name, "accounts");
    assert_eq!(guard.mode, ReadWrite::Read);
    assert!(bundle.get("users").is_none());
    assert_eq!(registry.asked(), asked(&[("accounts", ReadWrite::Read)]));
    assert_eq!(registry.released.get(), 0);
    drop(bundle);
    assert_eq!(registry.released.get(), 1);
}

#[test]
fn locks_are_asked_for_in_the_order_of_their_names() {
    let registry = Registry::new(&[]);
    let bundle = locks(&requests(&[("b", ReadWrite::Write), ("a", ReadWrite::Read)]), |r: &LockRequest| {
        registry.acquire(r)
    })
    .unwrap();
    assert_eq!(registry.asked(), asked(&[("a", ReadWrite::Read), ("b", ReadWrite::Write)]));
    assert_eq!(
        bundle.request_set().as_slice(),
        &[LockRequest::new("a", ReadWrite::Read), LockRequest::new("b", ReadWrite::Write)][..]
    );
}

#[test]
fn a_duplicate_name_asks_for_no_lock() {
    let registry = Registry::new(&[]);
    let r = locks(&requests(&[("a", ReadWrite::Read), ("a", ReadWrite::Write)]), |r: &LockRequest| {
        registry.acquire(r)
    });
    match r {
        Err(LocksError::DuplicateName(e)) => assert_eq!(e.name, "a"),
        other => panic!("expected a duplicate name, got {other:?}"),
    }
    assert_eq!(registry.asked(), vec![]);
    assert_eq!(registry.released.get(), 0);
}

#[test]
fn a_failure_names_the_lock_and_releases_what_was_acquired() {
    let registry = Registry::new(&["b"]);
    let r = locks(&requests(&[("a", ReadWrite::Read), ("b", ReadWrite::Read)]), |r: &LockRequest| {
        registry.acquire(r)
    });
    match r {
        Err(LocksError::Acquisition(e)) => {
            assert_eq!(e.name, "b");
            assert_eq!(e.cause, "b is poisoned");
        }
        other => panic!("expected a failed acquisition, got {other:?}"),
    }
    assert_eq!(registry.asked(), asked(&[("a", ReadWrite::Read), ("b", ReadWrite::Read)]));
    assert_eq!(registry.released.get(), 1);
}

#[test]
fn a_failure_stops_the_chain_at_once() {
    let registry = Registry::new(&["c", "d"]);
    let given = requests(&[
        ("e", ReadWrite::Read),
        ("c", ReadWrite::Write),
        ("a", ReadWrite::Read),
        ("d", ReadWrite::Read),
        ("b", ReadWrite::Write),
    ]);
    let r = locks(&given, |r: &LockRequest| registry.acquire(r));
    match r {
        Err(LocksError::Acquisition(e)) => {
            assert_eq!(e.name, "c");
            assert_eq!(e.cause, "c is poisoned");
        }
        other => panic!("expected a failed acquisition, got {other:?}"),
    }
    assert_eq!(
        registry.asked(),
        asked(&[("a", ReadWrite::Read), ("b", ReadWrite::Write), ("c", ReadWrite::Write)])
    );
    assert_eq!(registry.released.get(), 2);
}

#[test]
fn a_failure_on_the_first_lock_holds_nothing() {
    let registry = Registry::new(&["a"]);
    let r = resolve(set(&[("b", ReadWrite::Read), ("a", ReadWrite::Write)]), |r: &LockRequest| {
        registry.acquire(r)
    });
    let e = r.unwrap_err();
    assert_eq!(e.name, "a");
    assert_eq!(e.cause, "a is poisoned");
    assert_eq!(registry.asked(), asked(&[("a", ReadWrite::Write)]));
    assert_eq!(registry.released.get(), 0);
}

#[test]
fn no_request_gives_an_empty_bundle_and_asks_for_nothing() {
    let registry = Registry::new(&[]);
    let bundle = locks(&[], |r: &LockRequest| registry.acquire(r)).unwrap();
    assert!(bundle.is_empty());
    assert_eq!(bundle.len(), 0);
    assert!(bundle.get("a").is_none());
    assert!(bundle.guard_at(0).is_none());
    assert_eq!(registry.asked(), vec![]);
    let bundle = resolve(set(&[]), |r: &LockRequest| registry.acquire(r)).unwrap();
    assert!(bundle.is_empty());
    assert_eq!(registry.asked(), vec![]);
}

#[test]
fn every_name_gets_its_own_guard() {
    let registry = Registry::new(&[]);
    let given = requests(&[
        ("users", ReadWrite::Write),
        ("accounts", ReadWrite::Read),
        ("orders", ReadWrite::Write),
    ]);
    let bundle = locks(&given, |r: &LockRequest| registry.acquire(r)).unwrap();
    assert_eq!(bundle.len(), 3);
    for r in &given {
        let guard = bundle.get(&r.name).unwrap();
        assert_eq!(guard.name, r.name);
        assert_eq!(guard.mode, r.mode);
    }
    for (i, name) in ["accounts", "orders", "users"].iter().enumerate() {
        assert_eq!(bundle.guard_at(i).unwrap().name, *name);
    }
    assert!(bundle.guard_at(3).is_none());
    assert_eq!(registry.asked().len(), 3);
    assert_eq!(registry.released.get(), 0);
    let guards = bundle.into_guards();
    let names: Vec<&str> = guards.iter().map(|g| g.name.as_str()).collect();
    assert_eq!(names, vec!["accounts", "orders", "users"]);
    assert_eq!(registry.released.get(), 0);
    drop(guards);
    assert_eq!(registry.released.get(), 3);
}

#[test]
fn the_bundle_releases_its_guards_when_it_goes() {
    let registry = Registry::new(&[]);
    {
        let _bundle: AcquisitionResult<Guard> =
            resolve(set(&[("a", ReadWrite::Read), ("b", ReadWrite::Write)]), |r: &LockRequest| {
                registry.acquire(r)
            })
            .unwrap();
        assert_eq!(registry.released.get(), 0);
    }
    assert_eq!(registry.released.get(), 2);
}

#[test]
fn a_chain_without_requests_is_complete_at_once() {
    match Chain::<u32>::begin::<String>(set(&[])) {
        Progress::Complete(bundle) => {
            assert!(bundle.is_empty());
            assert_eq!(bundle.into_guards(), vec![]);
        }
        other => panic!("expected a complete chain, got {other:?}"),
    }
}

#[test]
fn a_chain_goes_through_its_requests_one_by_one() {
    let start = Chain::<u32>::begin::<String>(set(&[
        ("c", ReadWrite::Read),
        ("a", ReadWrite::Write),
        ("b", ReadWrite::Read),
    ]));
    let chain = match start {
        Progress::Pending(chain) => chain,
        other => panic!("expected a pending chain, got {other:?}"),
    };
    assert_eq!(chain.position(), 0);
    assert_eq!(chain.request(), &LockRequest::new("a", ReadWrite::Write));
    let chain = match chain.step(Ok::<u32, String>(10)) {
        Progress::Pending(chain) => chain,
        other => panic!("expected a pending chain, got {other:?}"),
    };
    assert_eq!(chain.position(), 1);
    assert_eq!(chain.request(), &LockRequest::new("b", ReadWrite::Read));
    let chain = match chain.step(Ok::<u32, String>(20)) {
        Progress::Pending(chain) => chain,
        other => panic!("expected a pending chain, got {other:?}"),
    };
    assert_eq!(chain.position(), 2);
    assert_eq!(chain.request(), &LockRequest::new("c", ReadWrite::Read));
    match chain.step(Ok::<u32, String>(30)) {
        Progress::Complete(bundle) => {
            assert_eq!(bundle.len(), 3);
            assert_eq!(bundle.get("a"), Some(&10));
            assert_eq!(bundle.get("b"), Some(&20));
            assert_eq!(bundle.get("c"), Some(&30));
            assert_eq!(bundle.get("d"), None);
            assert_eq!(bundle.into_guards(), vec![10, 20, 30]);
        }
        other => panic!("expected a complete chain, got {other:?}"),
    }
}

#[test]
fn a_chain_fails_with_the_name_of_its_current_request() {
    let released = Rc::new(Cell::new(0));
    let guard = |name: &str| Guard {
        name: name.to_string(),
        mode: ReadWrite::Read,
        released: released.clone(),
    };
    let start = Chain::<Guard>::begin::<u8>(set(&[
        ("a", ReadWrite::Read),
        ("b", ReadWrite::Read),
        ("c", ReadWrite::Read),
    ]));
    let chain = match start {
        Progress::Pending(chain) => chain,
        other => panic!("expected a pending chain, got {other:?}"),
    };
    let chain = match chain.step(Ok::<Guard, u8>(guard("a"))) {
        Progress::Pending(chain) => chain,
        other => panic!("expected a pending chain, got {other:?}"),
    };
    let chain = match chain.step(Ok::<Guard, u8>(guard("b"))) {
        Progress::Pending(chain) => chain,
        other => panic!("expected a pending chain, got {other:?}"),
    };
    assert_eq!(released.get(), 0);
    match chain.step(Err::<Guard, u8>(7)) {
        Progress::Failed(e) => {
            assert_eq!(e.name, "c");
            assert_eq!(e.cause, 7);
        }
        other => panic!("expected a failed chain, got {other:?}"),
    }
    assert_eq!(released.get(), 2);
}

#[test]
fn an_abandoned_chain_releases_what_it_holds() {
    let released = Rc::new(Cell::new(0));
    let start = Chain::<Guard>::begin::<u8>(set(&[("a", ReadWrite::Read), ("b", ReadWrite::Read)]));
    let chain = match start {
        Progress::Pending(chain) => chain,
        other => panic!("expected a pending chain, got {other:?}"),
    };
    let guard = Guard { name: "a".to_string(), mode: ReadWrite::Read, released: released.clone() };
    let chain = match chain.step(Ok::<Guard, u8>(guard)) {
        Progress::Pending(chain) => chain,
        other => panic!("expected a pending chain, got {other:?}"),
    };
    assert_eq!(released.get(), 0);
    drop(chain);
    assert_eq!(released.get(), 1);
}
