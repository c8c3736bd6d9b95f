use jftermd::rendition::accumulate;

fn list(groups: &[&[u16]]) -> Vec<Vec<u16>> {
    groups.iter().map(|g| g.to_vec()).collect()
}

/// The groups in force after a sequence, which all fit into one.
fn after(sgr: &[&[u16]], params: &[&[u16]]) -> Vec<Vec<u16>> {
    let mut r = accumulate(&vec![list(sgr)], &list(params));
    assert!(r.len() <= 1);
    r.pop().unwrap_or_default()
}

#[test]
fn attributes_add_up() {
    assert_eq!(after(&[], &[&[1]]), vec![vec![1]]);
    assert_eq!(after(&[&[1]], &[&[31]]), vec![vec![1], vec![31]]);
    assert_eq!(after(&[&[1], &[31]], &[&[32]]), vec![vec![1], vec![32]]);
    assert_eq!(after(&[&[31]], &[&[91], &[101]]), vec![vec![91], vec![101]]);
}

#[test]
fn zero_resets_everything_before_it() {
    assert_eq!(after(&[&[1], &[31]], &[&[0]]), Vec::<Vec<u16>>::new());
    assert_eq!(after(&[&[1], &[31]], &[&[4], &[0], &[7]]), vec![vec![7]]);
    assert_eq!(after(&[&[1]], &[]), Vec::<Vec<u16>>::new());
}

#[test]
fn single_attributes_are_taken_back() {
    assert_eq!(after(&[&[1], &[2], &[3]], &[&[22]]), vec![vec![3]]);
    assert_eq!(after(&[&[4, 3]], &[&[4, 0]]), Vec::<Vec<u16>>::new());
    assert_eq!(after(&[&[21]], &[&[24]]), Vec::<Vec<u16>>::new());
    assert_eq!(after(&[&[5], &[7], &[8], &[9]], &[&[25], &[27], &[28], &[29]]).len(), 0);
    assert_eq!(after(&[&[3], &[11], &[52], &[53], &[73]], &[&[23], &[10], &[54], &[55], &[75]]).len(), 0);
    assert_eq!(after(&[&[31], &[41], &[58, 5, 1]], &[&[39], &[49], &[59]]).len(), 0);
}

#[test]
fn colours_take_their_arguments() {
    // The arguments are no attributes of their own.
    let long: &[&[u16]] = &[&[38], &[5], &[1], &[1]];
    assert_eq!(after(&[], long), vec![vec![38], vec![5], vec![1], vec![1]]);
    let rgb: &[&[u16]] = &[&[48], &[2], &[0], &[0], &[0], &[3]];
    assert_eq!(after(&[&[1]], rgb), vec![vec![1], vec![48], vec![2], vec![0], vec![0], vec![0], vec![3]]);
    assert_eq!(after(&[], &[&[38, 2, 1, 2, 3]]), vec![vec![38, 2, 1, 2, 3]]);
    assert_eq!(after(&[&[31]], &[&[38, 2, 0, 1, 2, 3, 0, 1]]), vec![vec![38, 2, 0, 1, 2, 3, 0, 1]]);
    // An unknown kind of colour is kept as it is.
    assert_eq!(after(&[&[31]], &[&[38], &[1]]), vec![vec![31], vec![38], vec![1]]);
    assert_eq!(after(&[&[31]], &[&[38, 5]]), vec![vec![31], vec![38, 5]]);
    assert_eq!(after(&[&[31], &[38], &[1]], &[&[39]]).len(), 0);
}

#[test]
fn an_unfinished_colour_stands_last() {
    assert_eq!(after(&[&[31]], &[&[38], &[5]]), vec![vec![31], vec![38], vec![5]]);
    assert_eq!(after(&[&[31]], &[&[38], &[2], &[1]]), vec![vec![31], vec![38], vec![2], vec![1]]);
    assert_eq!(after(&[&[31]], &[&[58]]), vec![vec![31], vec![58]]);
    // What comes next is not taken for its arguments.
    assert_eq!(after(&[&[31], &[38], &[5]], &[&[7]]), vec![vec![31], vec![7]]);
}

#[test]
fn unknown_parameters_are_kept() {
    assert_eq!(
        after(&[&[1]], &[&[200], &[65535], &[1, 2], &[26]]),
        vec![vec![1], vec![200], vec![65535], vec![1, 2], vec![26]]
    );
    assert_eq!(after(&[&[200], &[56]], &[&[200]]), vec![vec![56], vec![200]]);
    assert_eq!(after(&[&[200], &[56], &[1, 2]], &[&[0]]).len(), 0);
    assert_eq!(after(&[&[1], &[1, 2]], &[&[22]]).len(), 0);
}

#[test]
fn rare_attributes_are_tracked() {
    assert_eq!(after(&[], &[&[20]]), vec![vec![20]]);
    assert_eq!(after(&[&[3], &[20]], &[&[23]]).len(), 0);
    assert_eq!(after(&[&[60]], &[&[64]]), vec![vec![64]]);
    assert_eq!(after(&[&[64]], &[&[65]]).len(), 0);
    assert_eq!(after(&[&[26]], &[&[50]]), vec![vec![50]]);
}

#[test]
fn more_than_a_sequence_holds_is_written_in_several() {
    let first: Vec<Vec<u16>> = (200..230).map(|n| vec![n]).collect();
    let all = accumulate(&vec![first.clone()], &list(&[&[1], &[31], &[41]]));
    assert_eq!(all.len(), 33);
    assert!(all.iter().all(|sequence| sequence.len() == 1));
    // Read one by one, they are all in force again.
    let mut read: Vec<Vec<Vec<u16>>> = Vec::new();
    for sequence in &all {
        read = accumulate(&read, sequence);
    }
    assert_eq!(read, all);
    // With one less they fit into one.
    let fewer = accumulate(&all, &list(&[&[49]]));
    assert_eq!(fewer.len(), 1);
    assert_eq!(fewer[0].len(), 32);
}
