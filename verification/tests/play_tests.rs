use minesweeper::input::arguments::Parameters;
use minesweeper::input::plays::{read_first_play, read_following_plays, PlayMode};
use minesweeper::random::RandomSource;

fn bytes(line: &str) -> Vec<u8> {
    line.as_bytes().to_vec()
}

#[test]
fn first_play_parses_the_target_cell() {
    let mut play = read_first_play(&bytes("3 4")).unwrap();
    assert!(matches!(play.mode(), PlayMode::Dig));
    assert_eq!(play.cell(), (3, 4));
}

#[test]
fn first_play_tolerates_extra_whitespace_and_a_plus_sign() {
    let mut play = read_first_play(&bytes("  +3\t4 \n")).unwrap();
    assert!(matches!(play.mode(), PlayMode::Dig));
    assert_eq!(play.cell(), (3, 4));
}

#[test]
fn first_play_rejects_wrong_token_counts() {
    assert!(read_first_play(&bytes("")).is_err());
    assert!(read_first_play(&bytes("3")).is_err());
    assert!(read_first_play(&bytes("3 4 5")).is_err());
}

#[test]
fn first_play_rejects_values_that_do_not_fit() {
    assert!(read_first_play(&bytes("256 0")).is_err());
    assert!(read_first_play(&bytes("0 1000")).is_err());
    let mut play = read_first_play(&bytes("255 0")).unwrap();
    assert_eq!(play.cell(), (255, 0));
}

#[test]
fn first_play_rejects_non_numeric_cells() {
    assert!(read_first_play(&bytes("a 4")).is_err());
    assert!(read_first_play(&bytes("3 4x")).is_err());
    assert!(read_first_play(&bytes("-3 4")).is_err());
    assert!(read_first_play(&bytes("+ 4")).is_err());
}

#[test]
fn following_play_parses_each_mode() {
    let mut play = read_following_plays(&bytes("d 1 2")).unwrap();
    assert!(matches!(play.mode(), PlayMode::Dig));
    assert_eq!(play.cell(), (1, 2));

    let mut play = read_following_plays(&bytes("m 0 7")).unwrap();
    assert!(matches!(play.mode(), PlayMode::Mark));
    assert_eq!(play.cell(), (0, 7));

    let mut play = read_following_plays(&bytes("u 5 5")).unwrap();
    assert!(matches!(play.mode(), PlayMode::Unmark));
    assert_eq!(play.cell(), (5, 5));
}

#[test]
fn following_play_accepts_upper_case_modes() {
    let mut play = read_following_plays(&bytes("M 2 3")).unwrap();
    assert!(matches!(play.mode(), PlayMode::Mark));
    assert_eq!(play.cell(), (2, 3));
}

#[test]
fn following_play_rejects_unknown_modes() {
    assert!(read_following_plays(&bytes("x 1 2")).is_err());
    assert!(read_following_plays(&bytes("dd 1 2")).is_err());
    assert!(read_following_plays(&bytes("1 2 3")).is_err());
}

#[test]
fn following_play_rejects_wrong_token_counts() {
    assert!(read_following_plays(&bytes("d 1")).is_err());
    assert!(read_following_plays(&bytes("d 1 2 3")).is_err());
    assert!(read_following_plays(&bytes("")).is_err());
}

#[test]
fn following_play_rejects_bad_cells() {
    assert!(read_following_plays(&bytes("d one 2")).is_err());
    assert!(read_following_plays(&bytes("d 1 256")).is_err());
}

#[test]
fn parameters_keep_their_values() {
    let params = Parameters::new(15, 30, 50);
    assert_eq!(params.rows(), 15);
    assert_eq!(params.columns(), 30);
    assert_eq!(params.mines(), 50);
}

#[test]
fn scripted_randomness_replays_its_values() {
    let mut random = RandomSource::scripted(vec![5, 2, 9]);
    assert_eq!(random.next_below(3), 2);
    assert_eq!(random.next_below(10), 2);
    assert_eq!(random.next_below(4), 1);
}

#[test]
fn random_values_stay_below_the_bound() {
    let mut random = RandomSource::system();
    assert_eq!(random.next_below(1), 0);
    for _ in 0..100 {
        assert!(random.next_below(6) < 6);
    }
    let mut exhausted = RandomSource::scripted(vec![7]);
    assert_eq!(exhausted.next_below(2), 1);
    assert!(exhausted.next_below(2) < 2);
}
