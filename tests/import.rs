use prpr::note::NoteKind;
use prpr::pgr::{
    build_chart, parse_float_events, parse_notes, parse_speed_events, validate_events, EventError, LinePart,
    ParseError, PgrChart, PgrEvent, PgrJudgeLine, PgrNote, PgrSpeedEvent,
};
use prpr::timeline::Timeline;
use prpr::units::{height_of, tick_to_time};

fn ev(start_time: i32, end_time: i32, start: i32, end: i32) -> PgrEvent {
    PgrEvent { start_time, end_time, start, end, start2: start, end2: end }
}

fn speed() -> Vec<PgrSpeedEvent> {
    vec![PgrSpeedEvent { start_time: 0, end_time: 1_000_000_000, value: 1000, floor_position: 0 }]
}

fn pnote(kind: u8, time: i32, hold_time: i32) -> PgrNote {
    PgrNote { kind, time, position_x: 0, hold_time, speed: 1000, floor_position: 0 }
}

fn pline(notes: Vec<PgrNote>) -> PgrJudgeLine {
    PgrJudgeLine {
        bpm: 120_000,
        alpha_events: vec![ev(-999_999, 1_000_000_000, 1000, 1000)],
        rotate_events: vec![ev(-999_999, 1_000_000_000, 0, 0)],
        move_events: vec![ev(-999_999, 1_000_000_000, 500, 500)],
        speed_events: speed(),
        notes_above: notes,
        notes_below: vec![],
    }
}

#[test]
fn event_gap_is_rejected() {
    let s = vec![(0, 10, 0, 0), (11, 1_000_000_000, 0, 0)];
    assert_eq!(validate_events(&s), Err(EventError::NotContiguous));
}

#[test]
fn inverted_event_is_rejected() {
    let s = vec![(20, 10, 0, 0), (10, 1_000_000_000, 0, 0)];
    assert_eq!(validate_events(&s), Err(EventError::InvalidTimeRange));
}

#[test]
fn short_or_empty_events_are_rejected() {
    assert_eq!(validate_events(&vec![(0, 900_000_000, 0, 0)]), Err(EventError::EndTimeTooSmall));
    assert_eq!(validate_events(&vec![]), Err(EventError::Empty));
    assert_eq!(validate_events(&vec![(0, 10, 0, 0), (10, 900_000_001, 0, 0)]), Ok(()));
}

#[test]
fn tick_and_height_conversions() {
    assert_eq!(tick_to_time(64, 120_000), 1_000_000);
    assert_eq!(tick_to_time(-64, 120_000), -1_000_000);
    assert_eq!(height_of(83_175), 100_000);
}

#[test]
fn click_at_zero_has_floor_zero() {
    let mut height = parse_speed_events(120_000, &speed(), 2_000_000).ok().unwrap();
    let notes = parse_notes(120_000, &vec![pnote(1, 0, 0)], true, &mut height).ok().unwrap();
    assert_eq!(notes.len(), 1);
    assert_eq!(notes[0].height, 0);
    assert_eq!(notes[0].kind, NoteKind::Click);
}

#[test]
fn hold_of_64_ticks_at_120_bpm_ends_at_one_second() {
    let mut height = parse_speed_events(120_000, &speed(), 2_000_000).ok().unwrap();
    let notes = parse_notes(120_000, &vec![pnote(3, 0, 64)], true, &mut height).ok().unwrap();
    match notes[0].kind {
        NoteKind::Hold { end_time, end_height } => {
            assert_eq!(end_time, 1_000_000);
            assert_eq!(end_height, height_of(2000) / 2);
        }
        _ => panic!("expected a hold"),
    }
}

#[test]
fn speed_timeline_extends_to_max_time() {
    let mut t = parse_speed_events(120_000, &speed(), 2_000_000).ok().unwrap();
    assert_eq!(t.keyframes.len(), 2);
    assert_eq!(t.keyframes[1].time, 2_000_000);
    assert_eq!(t.keyframes[1].value, height_of(2000));
    t.set_time(1_000_000);
    assert_eq!(t.now(), height_of(2000) / 2);
    let bad = vec![PgrSpeedEvent { start_time: 5, end_time: 1_000_000_000, value: 1000, floor_position: 0 }];
    assert_eq!(parse_speed_events(120_000, &bad, 2_000_000).err(), Some(ParseError::SpeedStartNotZero));
}

#[test]
fn equal_neighbouring_values_are_merged() {
    let evs = vec![ev(0, 32, 0, 1000), ev(32, 64, 1000, 1000), ev(64, 1_000_000_000, 500, 500)];
    let t = parse_float_events(120_000, &evs).ok().unwrap();
    let times: Vec<i64> = t.keyframes.iter().map(|k| k.time).collect();
    let values: Vec<i64> = t.keyframes.iter().map(|k| k.value).collect();
    assert_eq!(times, vec![0, 500_000, 1_000_000, 1_000_000]);
    assert_eq!(values, vec![0, 1000, 1000, 500]);
}

#[test]
fn unsorted_notes_and_unknown_kinds_are_rejected() {
    let mut h = Timeline::fixed(0);
    assert_eq!(parse_notes(120_000, &vec![pnote(1, 5, 0), pnote(1, 4, 0)], true, &mut h).err(), Some(ParseError::NotesNotSorted));
    assert_eq!(parse_notes(120_000, &vec![pnote(1, 1, 0), pnote(7, 2, 0), pnote(9, 3, 0)], true, &mut h).err(), Some(ParseError::UnknownNoteKind(7)));
}

#[test]
fn chart_error_names_first_bad_line() {
    let mut bad = pline(vec![]);
    bad.move_events = vec![ev(0, 10, 0, 0), ev(20, 1_000_000_000, 0, 0)];
    let chart = PgrChart { offset: 0, judge_line_list: vec![pline(vec![pnote(1, 0, 0)]), bad] };
    let e = build_chart(&chart).err().unwrap();
    assert_eq!(e.line, 1);
    assert_eq!(e.part, LinePart::MoveEvents);
    assert_eq!(e.error, ParseError::Events(EventError::NotContiguous));
}

#[test]
fn chart_converts_lines_and_notes() {
    let chart = PgrChart { offset: 7, judge_line_list: vec![pline(vec![pnote(1, 0, 0), pnote(3, 64, 64)])] };
    let c = build_chart(&chart).ok().unwrap();
    assert_eq!(c.offset, 7);
    assert_eq!(c.lines.len(), 1);
    let l = &c.lines[0];
    assert_eq!(l.notes.len(), 2);
    assert_eq!(l.height.keyframes[1].time, 2_000_000);
    assert_eq!(l.object.translation_x.keyframes[0].value, 0);
    assert_eq!(l.object.alpha.keyframes[0].value, 1000);
}
