use sam::sequential_state::{
    EntrySelector, ErrorSeqStateInteractor, SequentialState, SequentialStateInteractor,
};

fn make_state(values: &[i32]) -> SequentialState<i32> {
    let mut state: SequentialState<i32> = SequentialState::new(None);
    for v in values {
        state.push(*v);
    }
    state
}

#[test]
fn test_sequential_state() {
    let values = vec![1, 2, 3, 4, 7];
    let mut state = make_state(&values);
    let returned_values: Vec<i32> = state.entries().clone();
    assert_eq!(returned_values, values);

    state.delete(1);

    let values = vec![1, 3, 4, 7];
    let returned_values: Vec<i32> = state.entries().clone();
    assert_eq!(returned_values, values);
}

#[test]
fn test_sequential_state_first_last() {
    let values = vec![1, 2, 3, 4, 7];
    let state = make_state(&values);

    assert_eq!(state.first(), Some(&1));
    assert_eq!(state.last(), Some(&7));
}

#[test]
fn test_sequential_state_interactor_entries() {}

#[test]
fn test_sequential_state_interactor_delete_entry() {}

#[test]
fn capped_state_evicts_the_oldest() {
    let mut state: SequentialState<i32> = SequentialState::new(Some(2));
    state.push(1);
    state.push(2);
    state.push(3);
    assert_eq!(state.entries(), &vec![2, 3]);
}

#[test]
fn empty_state_has_no_ends() {
    let state: SequentialState<i32> = SequentialState::new(None);
    assert_eq!(state.first(), None);
    assert_eq!(state.last(), None);
}

struct PickFirst;

impl EntrySelector<i32> for PickFirst {
    fn select_entry(&self, data: &Vec<i32>) -> Result<Option<usize>, String> {
        if data.is_empty() {
            Ok(None)
        } else {
            Ok(Some(0))
        }
    }
}

struct PickBeyond;

impl EntrySelector<i32> for PickBeyond {
    fn select_entry(&self, data: &Vec<i32>) -> Result<Option<usize>, String> {
        Ok(Some(data.len() + 5))
    }
}

struct Refuse;

impl EntrySelector<i32> for Refuse {
    fn select_entry(&self, _data: &Vec<i32>) -> Result<Option<usize>, String> {
        Err("nothing to select".to_string())
    }
}

#[test]
fn interactor_enforces_the_cap() {
    let mut it: SequentialStateInteractor<i32, PickFirst> =
        SequentialStateInteractor::new(PickFirst, Some(2));
    it.push(1);
    it.push(2);
    it.push(3);
    assert_eq!(it.entries(), &vec![2, 3]);
}

#[test]
fn interactor_deletes_the_selected_entry() {
    let mut it: SequentialStateInteractor<i32, PickFirst> =
        SequentialStateInteractor::new(PickFirst, None);
    it.push(10);
    it.push(20);
    assert!(it.delete_entry().is_ok());
    assert_eq!(it.entries(), &vec![20]);
}

#[test]
fn interactor_with_empty_state_deletes_nothing() {
    let mut it: SequentialStateInteractor<i32, PickFirst> =
        SequentialStateInteractor::new(PickFirst, None);
    assert!(it.delete_entry().is_ok());
    assert_eq!(it.entries().len(), 0);
}

#[test]
fn interactor_rejects_selection_out_of_range() {
    let mut it: SequentialStateInteractor<i32, PickBeyond> =
        SequentialStateInteractor::new(PickBeyond, None);
    it.push(1);
    assert!(matches!(
        it.delete_entry(),
        Err(ErrorSeqStateInteractor::ErrEntrySelector(_))
    ));
    assert_eq!(it.entries(), &vec![1]);
}

#[test]
fn interactor_propagates_selector_failure() {
    let mut it: SequentialStateInteractor<i32, Refuse> =
        SequentialStateInteractor::new(Refuse, None);
    it.push(1);
    assert!(matches!(
        it.delete_entry(),
        Err(ErrorSeqStateInteractor::ErrEntrySelector(_))
    ));
}
