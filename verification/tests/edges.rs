use mii::{Chunk, ChunkIncr, Mii, MiiIncr, MiiSearchState, ToChunkIncr};

/// Every edge of `data`, found by handing the rest of `data` in again
/// behind each edge.
fn all_edges(w: u64, data: &[u8]) -> Vec<usize> {
    let mii = Mii::with_w(w);
    let mut state = mii.to_search_state();
    let mut edges = Vec::new();
    let mut at = 0;
    while at < data.len() {
        let (edge, consumed) = mii.find_chunk_edge(&mut state, &data[at..]);
        at += consumed;
        if edge.is_some() {
            edges.push(at);
        }
    }
    edges
}

/// Every edge that a counter reports when `parts` are pushed in order, the
/// rest of a part being pushed again behind each edge.
fn pushed_edges(incr: &mut MiiIncr, parts: &[&[u8]]) -> Vec<usize> {
    let mut edges = Vec::new();
    let mut base = 0;
    for part in parts {
        let mut at = 0;
        while at < part.len() {
            match incr.push(&part[at..]) {
                Some(k) => {
                    at += k;
                    edges.push(base + at);
                }
                None => at = part.len(),
            }
        }
        base += part.len();
    }
    edges
}

fn noise(n: usize) -> Vec<u8> {
    let mut x: u32 = 0x2545_f491;
    let mut out = Vec::with_capacity(n);
    for _ in 0..n {
        x = x.wrapping_mul(1_664_525).wrapping_add(1_013_904_223);
        out.push((x >> 24) as u8);
    }
    out
}

#[test]
fn unit_threshold_splits_at_first_rise() {
    let mii = Mii::with_w(1);
    let mut state = mii.to_search_state();
    assert_eq!(mii.find_chunk_edge(&mut state, &[5, 10]), (Some(2), 2));
}

#[test]
fn unit_threshold_push_splits_at_first_rise() {
    let mut incr = Mii::with_w(1).to_chunk_incr();
    assert_eq!(incr.push(&[5, 10]), Some(2));
}

#[test]
fn first_byte_is_never_a_rise() {
    let mut incr = Mii::with_w(1).to_chunk_incr();
    assert_eq!(incr.push(&[255]), None);
    let mut incr = Mii::with_w(1).to_chunk_incr();
    assert_eq!(incr.push(&[254]), None);
    assert_eq!(incr.push(&[255]), Some(1));
}

#[test]
fn descent_has_no_edge() {
    for w in 1..=6 {
        let mii = Mii::with_w(w);
        let mut state = mii.to_search_state();
        assert_eq!(mii.find_chunk_edge(&mut state, &[200, 150, 100, 50]), (None, 4));
    }
}

#[test]
fn plateau_has_no_edge() {
    let mii = Mii::with_w(1);
    let mut state = mii.to_search_state();
    assert_eq!(mii.find_chunk_edge(&mut state, &[7, 7, 7, 7, 7]), (None, 5));
}

#[test]
fn zero_behind_an_edge_is_no_rise() {
    let mut incr = Mii::with_w(1).to_chunk_incr();
    assert_eq!(incr.push(&[5, 10]), Some(2));
    assert_eq!(incr.push(&[0]), None);
    assert_eq!(incr.push(&[0]), None);
    assert_eq!(incr.push(&[1]), Some(1));
}

#[test]
fn any_other_byte_behind_an_edge_is_a_rise() {
    // the counter is left at zero, not at the greatest byte value
    let mut incr = Mii::with_w(1).to_chunk_incr();
    assert_eq!(incr.push(&[5, 10]), Some(2));
    assert_eq!(incr.push(&[1]), Some(1));

    let mut incr = Mii::with_w(2).to_chunk_incr();
    assert_eq!(incr.push(&[1, 2, 3, 9, 9]), Some(3));
    assert_eq!(incr.push(&[1, 2]), Some(2));
}

#[test]
fn search_starts_afresh_behind_an_edge() {
    let mii = Mii::with_w(1);
    let mut state = mii.to_search_state();
    assert_eq!(mii.find_chunk_edge(&mut state, &[5, 10]), (Some(2), 2));
    assert_eq!(mii.find_chunk_edge(&mut state, &[0]), (None, 1));

    let mut state = mii.to_search_state();
    assert_eq!(mii.find_chunk_edge(&mut state, &[5, 10]), (Some(2), 2));
    assert_eq!(mii.find_chunk_edge(&mut state, &[1]), (None, 1));
    assert_eq!(mii.find_chunk_edge(&mut state, &[2]), (Some(1), 1));
}

#[test]
fn two_edges_in_one_slice() {
    let mii = Mii::with_w(2);
    let mut state = mii.to_search_state();
    let data = [1, 2, 3, 1, 2, 3];
    let (edge, consumed) = mii.find_chunk_edge(&mut state, &data);
    assert_eq!((edge, consumed), (Some(3), 3));
    assert_eq!(mii.find_chunk_edge(&mut state, &data[consumed..]), (Some(3), 3));
    assert_eq!(all_edges(2, &data), vec![3, 6]);
}

#[test]
fn bytes_behind_an_edge_are_not_examined() {
    let mut incr = Mii::with_w(1).to_chunk_incr();
    assert_eq!(incr.push(&[1, 2, 200]), Some(2));
    // had 200 been examined, 100 would be no rise
    assert_eq!(incr.push(&[100]), Some(1));
}

#[test]
fn empty_input_changes_nothing() {
    let mii = Mii::with_w(2);
    let mut state = mii.to_search_state();
    assert_eq!(mii.find_chunk_edge(&mut state, &[]), (None, 0));
    assert_eq!(mii.find_chunk_edge(&mut state, &[1, 2]), (None, 2));
    assert_eq!(mii.find_chunk_edge(&mut state, &[]), (None, 0));
    assert_eq!(mii.find_chunk_edge(&mut state, &[3]), (Some(1), 1));
    assert_eq!(mii.find_chunk_edge(&mut state, &[]), (None, 0));
}

#[test]
fn empty_push_changes_nothing() {
    let mut incr = Mii::with_w(2).to_chunk_incr();
    assert_eq!(incr.push(&[]), None);
    assert_eq!(incr.push(&[1, 2]), None);
    assert_eq!(incr.push(&[]), None);
    assert_eq!(incr.push(&[3]), Some(1));
}

#[test]
fn run_carries_over_between_slices() {
    let mut incr = Mii::with_w(3).to_chunk_incr();
    assert_eq!(incr.push(&[10]), None);
    assert_eq!(incr.push(&[20]), None);
    assert_eq!(incr.push(&[30]), None);
    assert_eq!(incr.push(&[40, 50]), Some(1));
}

#[test]
fn a_fall_ends_the_run() {
    let mut incr = Mii::with_w(3).to_chunk_incr();
    assert_eq!(incr.push(&[10, 20, 30, 30, 40, 50, 60, 70]), Some(7));
}

#[test]
fn slicing_does_not_move_the_edges() {
    let data = noise(300);
    for w in 0..5 {
        let mut one = Mii::with_w(w).to_chunk_incr();
        let whole = pushed_edges(&mut one, &[&data]);
        for cut in 1..data.len() {
            let mut two = Mii::with_w(w).to_chunk_incr();
            let parts = pushed_edges(&mut two, &[&data[..cut], &data[cut..]]);
            assert_eq!(parts, whole);
            // the counters go on alike
            assert_eq!(one_more(&mut two), one_more(&mut after(w, &data)));
        }
    }
}

/// A counter that has taken `data` as one slice.
fn after(w: u64, data: &[u8]) -> MiiIncr {
    let mut incr = Mii::with_w(w).to_chunk_incr();
    pushed_edges(&mut incr, &[data]);
    incr
}

/// What the counter reports on a long rise: this tells two states apart.
fn one_more(incr: &mut MiiIncr) -> Vec<Option<usize>> {
    let mut seen = Vec::new();
    for b in 0..=255u8 {
        seen.push(incr.push(&[b]));
    }
    seen
}

#[test]
fn byte_by_byte_finds_the_same_edges() {
    let data = noise(200);
    for w in 1..4 {
        let mut one = Mii::with_w(w).to_chunk_incr();
        let whole = pushed_edges(&mut one, &[&data]);
        let mut each = Mii::with_w(w).to_chunk_incr();
        let parts: Vec<&[u8]> = data.chunks(1).collect();
        assert_eq!(pushed_edges(&mut each, &parts), whole);
        let mut some = Mii::with_w(w).to_chunk_incr();
        let parts: Vec<&[u8]> = data.chunks(7).collect();
        assert_eq!(pushed_edges(&mut some, &parts), whole);
    }
}

#[test]
fn three_bytes_one_by_one() {
    let mut whole = Mii::with_w(2).to_chunk_incr();
    assert_eq!(whole.push(&[1, 2, 3]), Some(3));
    let mut each = Mii::with_w(2).to_chunk_incr();
    assert_eq!(each.push(&[1]), None);
    assert_eq!(each.push(&[2]), None);
    assert_eq!(each.push(&[3]), Some(1));
}

#[test]
fn greater_threshold_finds_no_more_edges() {
    let data = noise(4000);
    let mut last = all_edges(1, &data).len();
    assert!(last > 0);
    for w in 2..=8 {
        let n = all_edges(w, &data).len();
        assert!(n <= last);
        last = n;
    }
}

#[test]
fn threshold_zero_finds_fewer_edges_than_one() {
    assert_eq!(all_edges(0, &[5, 10]), Vec::<usize>::new());
    assert_eq!(all_edges(1, &[5, 10]), vec![2]);
}

#[test]
fn edges_of_a_long_rise() {
    // a search starts afresh behind each edge, so the byte behind it is
    // no rise: an edge takes one byte more than the threshold
    let rise: Vec<u8> = (0..20).collect();
    assert_eq!(all_edges(1, &rise), vec![2, 4, 6, 8, 10, 12, 14, 16, 18, 20]);
    assert_eq!(all_edges(2, &rise), vec![3, 6, 9, 12, 15, 18]);
    assert_eq!(all_edges(3, &rise), vec![4, 8, 12, 16, 20]);
    assert_eq!(all_edges(9, &rise), vec![10, 20]);
    assert_eq!(all_edges(19, &rise), vec![20]);
    assert_eq!(all_edges(20, &rise), Vec::<usize>::new());
}

#[test]
fn threshold_zero_never_splits() {
    let rise: Vec<u8> = (0..=255).collect();
    let mii = Mii::with_w(0);
    let mut state = mii.to_search_state();
    assert_eq!(mii.find_chunk_edge(&mut state, &rise), (None, 256));
    assert_eq!(mii.find_chunk_edge(&mut state, &rise), (None, 256));
    assert_eq!(all_edges(0, &noise(1000)), Vec::<usize>::new());
}

#[test]
fn threshold_beyond_any_run_never_splits() {
    let rise: Vec<u8> = (0..=255).collect();
    for w in [256, 1 << 40, u64::MAX] {
        let mut incr = Mii::with_w(w).to_chunk_incr();
        assert_eq!(incr.push(&rise), None);
        assert_eq!(incr.push(&rise), None);
    }
}

#[test]
fn longest_run_splits_at_its_end() {
    let rise: Vec<u8> = (0..=255).collect();
    let mut incr = Mii::with_w(255).to_chunk_incr();
    assert_eq!(incr.push(&rise), Some(256));
}

#[test]
fn default_threshold_is_five() {
    let mii = Mii::default();
    let mut state = mii.to_search_state();
    assert_eq!(mii.find_chunk_edge(&mut state, &[0, 1, 2, 3, 4, 5, 6]), (Some(6), 6));
    let mut state = mii.to_search_state();
    assert_eq!(mii.find_chunk_edge(&mut state, &[0, 1, 2, 3, 4]), (None, 5));
}

#[test]
fn conversions_start_a_stream() {
    let mii = Mii::with_w(2);
    let mut by_ref = MiiIncr::from(&mii);
    assert_eq!(by_ref.push(&[1, 2, 3]), Some(3));
    let mut by_value = MiiIncr::from(mii.clone());
    assert_eq!(by_value.push(&[1, 2, 3]), Some(3));
    let mut search = MiiSearchState::from(MiiIncr::from(&mii));
    assert_eq!(search.push(&[1, 2]), None);
    assert_eq!(search.push(&[3]), Some(1));
}

#[test]
fn search_goes_on_where_the_counter_stands() {
    let mut incr = Mii::with_w(2).to_chunk_incr();
    assert_eq!(incr.push(&[1, 2]), None);
    let mut search = MiiSearchState::from(incr);
    assert_eq!(search.push(&[3]), Some(1));
}

#[test]
fn reset_forgets_the_run() {
    let mut incr = Mii::with_w(2).to_chunk_incr();
    assert_eq!(incr.push(&[1, 2]), None);
    incr.reset();
    assert_eq!(incr.push(&[3]), None);
    assert_eq!(incr.push(&[4, 5]), Some(2));

    let mut search = Mii::with_w(2).to_search_state();
    assert_eq!(search.push(&[1, 2]), None);
    search.reset();
    assert_eq!(search.push(&[3, 4]), None);
    assert_eq!(search.push(&[5]), Some(1));
}

#[test]
fn search_push_leaves_the_counter_at_zero() {
    // without the reset that the search makes, the next byte is held
    // against zero
    let mut search = Mii::with_w(1).to_search_state();
    assert_eq!(search.push(&[5, 10]), Some(2));
    assert_eq!(search.push(&[1]), Some(1));
}

#[test]
fn state_keeps_its_own_threshold() {
    let narrow = Mii::with_w(1);
    let wide = Mii::with_w(3);
    let mut state = wide.to_search_state();
    assert_eq!(narrow.find_chunk_edge(&mut state, &[1, 2, 3, 4]), (Some(4), 4));
}

#[test]
fn debug_names_the_types() {
    assert_eq!(format!("{:?}", Mii::with_w(3)), "Mii { w: 3 }");
    assert!(format!("{:?}", Mii::with_w(3).to_chunk_incr()).starts_with("MiiIncr"));
    assert!(format!("{:?}", Mii::with_w(3).to_search_state()).starts_with("MiiSearchState"));
}
