use mozsearch_format::blame::{
    check_blame_line, check_numbered_blame_line, BlameStep, BlameTrail, BlameWalk, MAX_IGNORED,
};

fn told(trail: &BlameTrail) -> (String, String, String) {
    (trail.revs(), trail.filespecs(), trail.linenos())
}

fn texts(revs: &str, filespecs: &str, linenos: &str) -> (String, String, String) {
    (revs.to_owned(), filespecs.to_owned(), linenos.to_owned())
}

fn find_previous(step: BlameStep) -> BlameWalk {
    match step {
        BlameStep::FindPrevious(walk) => walk,
        BlameStep::Done(_) => panic!("the walk is over"),
    }
}

fn done(step: BlameStep) -> BlameTrail {
    match step {
        BlameStep::Done(trail) => trail,
        BlameStep::FindPrevious(_) => panic!("the walk is not over"),
    }
}

#[test]
fn blame_lines_have_three_fields() {
    assert!(check_blame_line("r:%:3:text: more"));
    assert!(check_blame_line("r:%:3"));
    assert!(!check_blame_line("r:%"));
    assert!(!check_blame_line(""));
    assert!(check_numbered_blame_line("r:%:3:x"));
    assert!(!check_numbered_blame_line("r:%:x:3"));
    assert!(!check_numbered_blame_line("r:%"));
}

#[test]
fn a_single_entry_is_told_as_it_is() {
    assert_eq!(told(&BlameTrail::single("abc:old/f.c:17:rest:of:line")), texts("abc", "old/f.c", "17"));
}

#[test]
fn a_revision_that_is_not_ignored_ends_the_walk() {
    let walk = BlameWalk::begin("abc:%:4:x", "dir/f.c");
    assert_eq!(walk.rev(), "abc");
    assert_eq!(walk.path(), "dir/f.c");
    assert_eq!(walk.lineno(), 4);
    assert_eq!(told(&done(walk.decide(false))), texts("abc", "%", "4"));
}

#[test]
fn a_walk_starts_at_the_path_that_the_blame_names() {
    let walk = BlameWalk::begin("abc:old.c:4:x", "new.c");
    assert_eq!(walk.path(), "old.c");
}

#[test]
fn a_file_that_did_not_move_is_told_by_a_percent_sign() {
    let walk = find_previous(BlameWalk::begin("a:%:4:", "dir/f.c").decide(true));
    let walk = walk.resume("b:%:9:", "dir//f.c");
    assert_eq!((walk.rev(), walk.path(), walk.lineno()), ("b", "dir//f.c", 9));
    assert_eq!(told(&done(walk.decide(false))), texts("a,b", "%,%", "4,9"));
}

#[test]
fn a_file_that_moved_is_told_by_its_path() {
    let walk = find_previous(BlameWalk::begin("a:%:4:", "f.c").decide(true));
    let walk = walk.resume("b:%:9:", "g.c");
    assert_eq!(walk.path(), "g.c");
    assert_eq!(told(&walk.give_up()), texts("a,b", "%,g.c", "4,9"));
}

#[test]
fn a_file_that_moved_back_is_told_by_a_percent_sign() {
    let walk = find_previous(BlameWalk::begin("a:%:4:", "f.c").decide(true));
    let walk = walk.resume("b:f.c:9:", "g.c");
    assert_eq!(walk.path(), "f.c");
    assert_eq!(told(&walk.give_up()), texts("a,b", "%,%", "4,9"));
}

#[test]
fn a_file_that_moved_twice_is_told_by_its_first_path() {
    let walk = find_previous(BlameWalk::begin("a:%:4:", "f.c").decide(true));
    let walk = walk.resume("b:h.c:9:", "g.c");
    assert_eq!(walk.path(), "h.c");
    assert_eq!(told(&walk.give_up()), texts("a,b", "%,h.c", "4,9"));
}

#[test]
fn a_walk_past_too_many_revisions_ends_in_an_empty_entry() {
    assert_eq!(MAX_IGNORED, 5);
    let mut walk = BlameWalk::begin("r0:%:1:", "f");
    for i in 1..6 {
        walk = find_previous(walk.decide(true)).resume(&format!("r{}:%:{}:", i, i + 1), "f");
    }
    assert_eq!(
        told(&done(walk.decide(true))),
        texts("r0,r1,r2,r3,r4,r5,", "%,%,%,%,%,%,", "1,2,3,4,5,6,")
    );
}

#[test]
fn a_walk_of_the_greatest_length_can_end_without_an_empty_entry() {
    let mut walk = BlameWalk::begin("r0:%:1:", "f");
    for i in 1..6 {
        walk = find_previous(walk.decide(true)).resume(&format!("r{}:%:{}:", i, i + 1), "f");
    }
    assert_eq!(
        told(&done(walk.decide(false))),
        texts("r0,r1,r2,r3,r4,r5", "%,%,%,%,%,%", "1,2,3,4,5,6")
    );
}
