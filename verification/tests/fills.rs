use chess_movegen::bits::set_bit;
use chess_movegen::sliding_pieces::{
    east_attacks, noea_attacks, nort_attacks, nowe_attacks, soea_attacks, sout_attacks,
    sowe_attacks, vision, west_attacks,
};

fn squares(list: &[usize]) -> u64 {
    list.iter().fold(0, |b, sq| b | (1u64 << sq))
}

#[test]
fn set_bit_sets_and_clears_one_square() {
    let mut b = 0u64;
    set_bit(&mut b, 0, true);
    set_bit(&mut b, 63, true);
    assert_eq!(b, 0x8000_0000_0000_0001);
    set_bit(&mut b, 0, false);
    assert_eq!(b, 0x8000_0000_0000_0000);
    set_bit(&mut b, 5, false);
    assert_eq!(b, 0x8000_0000_0000_0000);
    set_bit(&mut b, 63, true);
    assert_eq!(b, 0x8000_0000_0000_0000);
}

#[test]
fn north_fill_stops_at_first_blocker() {
    // A slider on a1, a blocker on a4: the slider sees a2, a3 and a4.
    let empty = !squares(&[0, 24]);
    assert_eq!(nort_attacks(1, empty), squares(&[8, 16, 24]));
}

#[test]
fn fills_on_an_empty_board_run_to_the_edge() {
    let d4 = 1u64 << 27;
    let empty = !d4;
    assert_eq!(nort_attacks(d4, empty), squares(&[35, 43, 51, 59]));
    assert_eq!(sout_attacks(d4, empty), squares(&[19, 11, 3]));
    assert_eq!(east_attacks(d4, empty), squares(&[28, 29, 30, 31]));
    assert_eq!(west_attacks(d4, empty), squares(&[26, 25, 24]));
    assert_eq!(noea_attacks(d4, empty), squares(&[36, 45, 54, 63]));
    assert_eq!(nowe_attacks(d4, empty), squares(&[34, 41, 48]));
    assert_eq!(soea_attacks(d4, empty), squares(&[20, 13, 6]));
    assert_eq!(sowe_attacks(d4, empty), squares(&[18, 9, 0]));
}

#[test]
fn fills_do_not_wrap_round_the_edge() {
    let h4 = 1u64 << 31;
    let a4 = 1u64 << 24;
    assert_eq!(east_attacks(h4, !0), 0);
    assert_eq!(noea_attacks(h4, !0), 0);
    assert_eq!(soea_attacks(h4, !0), 0);
    assert_eq!(west_attacks(a4, !0), 0);
    assert_eq!(nowe_attacks(a4, !0), 0);
    assert_eq!(sowe_attacks(a4, !0), 0);
    assert_eq!(nort_attacks(1u64 << 63, !0), 0);
    assert_eq!(sout_attacks(1, !0), 0);
}

#[test]
fn a_fill_sees_the_blocker_and_nothing_behind_it() {
    let a1 = 1u64;
    let empty = !squares(&[0, 3, 18]);
    assert_eq!(east_attacks(a1, empty), squares(&[1, 2, 3]));
    assert_eq!(noea_attacks(a1, empty), squares(&[9, 18]));
}

#[test]
fn a_fill_takes_all_sliders_at_once() {
    let sliders = squares(&[0, 7]);
    let empty = !squares(&[0, 7, 16]);
    assert_eq!(nort_attacks(sliders, empty), squares(&[8, 16, 15, 23, 31, 39, 47, 55, 63]));
}

#[test]
fn a_slider_next_to_a_slider_is_seen() {
    let sliders = squares(&[0, 1]);
    assert_eq!(east_attacks(sliders, 0), squares(&[1, 2]));
}

#[test]
fn vision_is_the_union_of_the_eight_fills() {
    let e4 = 1u64 << 28;
    let empty = !squares(&[28, 30, 44, 10]);
    let all = nort_attacks(e4, empty) | noea_attacks(e4, empty) | east_attacks(e4, empty)
        | soea_attacks(e4, empty) | sout_attacks(e4, empty) | sowe_attacks(e4, empty)
        | west_attacks(e4, empty) | nowe_attacks(e4, empty);
    assert_eq!(vision(e4, empty), all);
    assert_eq!(
        vision(e4, empty),
        squares(&[
            36, 44, 37, 46, 55, 29, 30, 21, 14, 7, 20, 12, 4, 19, 10, 27, 26, 25, 24, 35, 42, 49,
            56,
        ])
    );
}
