use prpr::cache::JudgeLineCache;
use prpr::chart::{Chart, ParentErrorKind};
use prpr::line::{decode_alpha, AlphaControl, ColorTimeline, JudgeLine, JudgeLineKind, RenderView, Transform};
use prpr::note::{JudgeStatus, Note, NoteKind};
use prpr::timeline::{Keyframe, Timeline, Tween};

fn note(above: bool, speed: i64, height: i64, is_plain: bool) -> Note {
    Note {
        kind: NoteKind::Click,
        time: height,
        translation_x: 0,
        translation_y: 0,
        speed,
        height,
        above,
        is_plain,
        fake: false,
        judge: JudgeStatus::Pending,
    }
}

fn transform() -> Transform {
    Transform {
        translation_x: Timeline::empty(),
        translation_y: Timeline::empty(),
        rotation: Timeline::empty(),
        scale_x: Timeline::empty(),
        scale_y: Timeline::empty(),
        alpha: Timeline::empty(),
    }
}

fn color() -> ColorTimeline {
    ColorTimeline { r: Timeline::empty(), g: Timeline::empty(), b: Timeline::empty(), a: Timeline::empty() }
}

fn line(notes: Vec<Note>, parent: Option<usize>) -> JudgeLine {
    JudgeLine::new(
        transform(),
        JudgeLineKind::Normal,
        Timeline::fixed(0),
        Timeline::empty(),
        notes,
        color(),
        parent,
        0,
        true,
        None,
    )
}

fn view(aggressive: bool) -> RenderView {
    RenderView { aggressive, alpha_extension: true, height_above: 250, height_below: 250 }
}

fn sorted(mut v: Vec<usize>) -> Vec<usize> {
    v.sort();
    v
}

#[test]
fn notes_are_put_in_load_order() {
    let mut notes = vec![note(false, 1, 5, false), note(true, 2, 3, false), note(true, 1, 9, false), note(true, 1, 1, true)];
    let cache = JudgeLineCache::new(&mut notes);
    assert!(notes[0].is_plain);
    assert_eq!((notes[1].above, notes[1].speed, notes[1].height), (true, 1, 9));
    assert_eq!((notes[2].above, notes[2].speed, notes[2].height), (true, 2, 3));
    assert!(!notes[3].above);
    assert_eq!(cache.above_indices, vec![1, 2]);
    assert_eq!(cache.below_indices, vec![3]);
    assert_eq!(cache.update_order, vec![0, 1, 2, 3]);
}

#[test]
fn runs_share_side_and_speed() {
    let l = line(
        vec![note(true, 1, 1, false), note(true, 1, 2, false), note(true, 3, 4, false), note(false, 3, 1, false), note(false, 3, 8, false)],
        None,
    );
    assert_eq!(l.cache.above_indices, vec![0, 2]);
    assert_eq!(l.cache.below_indices, vec![3]);
    for w in l.notes.windows(2) {
        if w[0].above == w[1].above && w[0].speed == w[1].speed {
            assert!(w[0].height <= w[1].height);
        }
    }
}

#[test]
fn judged_run_leaves_cache() {
    let mut l = line(vec![note(true, 1, 1, false), note(true, 1, 2, false), note(true, 2, 3, false)], None);
    l.judge(0);
    l.update(10);
    assert_eq!(l.cache.above_indices, vec![1, 2]);
    assert_eq!(l.cache.update_order, vec![1, 2]);
    l.judge(1);
    l.update(20);
    assert_eq!(l.cache.above_indices, vec![2]);
    let r = l.render(&view(false));
    assert_eq!(sorted(r.above), vec![2]);
}

#[test]
fn judged_hold_stays_live_until_its_end() {
    let mut n = note(true, 1, 1, false);
    n.kind = NoteKind::Hold { end_time: 100, end_height: 5 };
    let mut l = line(vec![n], None);
    l.judge(0);
    l.update(50);
    assert_eq!(l.cache.update_order, vec![0]);
    assert!(l.cache.above_indices.is_empty());
    l.update(100);
    assert!(l.cache.update_order.is_empty());
}

#[test]
fn aggressive_culling_matches_full_scan() {
    let mut notes = Vec::new();
    for h in [0i64, 100, 200, 300, 400] {
        notes.push(note(true, 1, h, false));
        notes.push(note(false, 2, h, false));
    }
    notes.push(note(true, 1, 1000, true));
    let l = line(notes, None);
    let a = l.render(&view(true));
    let b = l.render(&view(false));
    assert_eq!(sorted(a.above.clone()), sorted(b.above.clone()));
    assert_eq!(sorted(a.below.clone()), sorted(b.below.clone()));
    assert_eq!(a.above.len(), 4);
    assert_eq!(a.below.len(), 3);
}

#[test]
fn alpha_control_codes() {
    assert_eq!(decode_alpha(500, true), AlphaControl::Normal);
    assert_eq!(decode_alpha(-500, false), AlphaControl::Hidden);
    assert_eq!(decode_alpha(-500, true), AlphaControl::Normal);
    assert_eq!(decode_alpha(-1500, true), AlphaControl::Hidden);
    assert_eq!(decode_alpha(-2000, true), AlphaControl::SuppressBelow);
    assert_eq!(decode_alpha(-150_000, true), AlphaControl::AppearBefore(5_000_000));
    assert_eq!(decode_alpha(-1_500_000, true), AlphaControl::Normal);
    assert_eq!(decode_alpha(-3000, true), AlphaControl::Normal);
}

#[test]
fn hidden_line_draws_no_notes() {
    let mut l = line(vec![note(true, 1, 0, false)], None);
    l.object.alpha = Timeline::new(vec![Keyframe { time: 0, value: -1000, tween: Tween::Hold }]);
    let r = l.render(&view(false));
    assert_eq!(r.control, AlphaControl::Hidden);
    assert!(r.above.is_empty());
}

#[test]
fn parent_links_are_validated() {
    assert!(Chart::new(0, vec![line(vec![], None), line(vec![], Some(0))]).is_ok());
    let e = Chart::new(0, vec![line(vec![], Some(5))]).err().unwrap();
    assert_eq!(e.kind, ParentErrorKind::Missing);
    let e = Chart::new(0, vec![line(vec![], Some(0))]).err().unwrap();
    assert_eq!(e.kind, ParentErrorKind::OwnParent);
    let e = Chart::new(0, vec![line(vec![], None), line(vec![], Some(0)), line(vec![], Some(1))]).err().unwrap();
    assert_eq!((e.line, e.kind), (2, ParentErrorKind::NestedParent));
}

#[test]
fn child_transform_names_parent_frame() {
    let mut parent = line(vec![], None);
    parent.object.rotation = Timeline::fixed(90_000);
    parent.object.translation_x = Timeline::fixed(300);
    let mut chart = Chart::new(0, vec![parent, line(vec![], Some(0))]).ok().unwrap();
    chart.update(5);
    let tr = chart.now_transform(1);
    let p = tr.parent.unwrap();
    assert_eq!((p.rotation, p.translation_x, p.translation_y), (90_000, 300, 0));
}

#[test]
fn render_reports_colour_and_text() {
    let mut l = line(vec![], None);
    l.color = ColorTimeline { r: Timeline::fixed(1000), g: Timeline::fixed(500), b: Timeline::fixed(0), a: Timeline::fixed(1000) };
    l.kind = JudgeLineKind::Text {
        texts: vec!["first".to_string(), "second".to_string()],
        index: Timeline::new(vec![
            Keyframe { time: 0, value: 0, tween: Tween::Hold },
            Keyframe { time: 100, value: 1, tween: Tween::Hold },
        ]),
    };
    l.update(150);
    let r = l.render(&view(false));
    assert_eq!(r.color, Some((1000, 500, 0, 1000)));
    assert_eq!(r.text, Some(1));
    assert_eq!(r.alpha, 1000);
    assert!(r.draw_below);
    let plain = line(vec![], None).render(&view(false));
    assert_eq!(plain.color, None);
    assert_eq!(plain.text, None);
}
