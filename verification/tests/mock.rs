use std::collections::hash_map::DefaultHasher;
use std::hash::Hasher;

use lib::mock::{Call, MockTarget};
use lib::target::SkyliteTarget;

#[test]
fn test_draw_sub() {
    let graphics_data: &[u8] = &[
        0, 1, 2, 3, 4, 5, 6, 7, 1, 2, 3, 4, 5, 6, 7, 8, 2, 3, 4, 5, 6, 7, 8, 9, 3, 4, 5, 6, 7, 8,
        9, 10, 4, 5, 6, 7, 8, 9, 10, 11, 5, 6, 7, 8, 9, 10, 11, 12, 6, 7, 8, 9, 10, 11, 12, 13, 7,
        8, 9, 10, 11, 12, 13, 14, 8,
    ];
    let graphics_data_hash = {
        let mut hasher = DefaultHasher::new();
        hasher.write(graphics_data);
        hasher.finish()
    };
    let mut target = MockTarget::new();
    target.push_tag("test");
    target.draw_sub(graphics_data, 0, 0, 0, 0, 8, 8, false, false, false);
    target.draw_sub(graphics_data, 8, 0, 0, 0, 8, 8, true, false, false);
    target.draw_sub(graphics_data, 16, 0, 0, 0, 8, 8, false, true, false);
    target.draw_sub(graphics_data, 24, 0, 0, 0, 8, 8, true, true, false);
    target.draw_sub(graphics_data, 0, 8, 0, 0, 8, 8, false, false, true);
    target.draw_sub(graphics_data, 8, 8, 0, 0, 8, 8, true, false, true);
    target.draw_sub(graphics_data, 16, 8, 0, 0, 8, 8, false, true, true);
    target.draw_sub(graphics_data, 24, 8, 0, 0, 8, 8, true, true, true);

    let call_history = target.get_calls_by_tag("test");
    assert_eq!(call_history.len(), 8);
    assert_eq!(
        call_history[0],
        Call::DrawSub {
            data: graphics_data_hash,
            x: 0,
            y: 0,
            src_x: 0,
            src_y: 0,
            src_w: 8,
            src_h: 8,
            flip_h: false,
            flip_v: false,
            rotate: false
        }
    );
    assert_eq!(
        call_history[7],
        Call::DrawSub {
            data: graphics_data_hash,
            x: 24,
            y: 8,
            src_x: 0,
            src_y: 0,
            src_w: 8,
            src_h: 8,
            flip_h: true,
            flip_v: true,
            rotate: true
        }
    );

    // Row 0
    assert_eq!(
        &target.screen_buffer[0..32],
        &[
            0, 1, 2, 3, 4, 5, 6, 7, 7, 6, 5, 4, 3, 2, 1, 0, 7, 8, 9, 10, 11, 12, 13, 14, 14, 13,
            12, 11, 10, 9, 8, 7
        ]
    );
    // Row 7
    assert_eq!(
        &target.screen_buffer[896..928],
        &[
            7, 8, 9, 10, 11, 12, 13, 14, 14, 13, 12, 11, 10, 9, 8, 7, 0, 1, 2, 3, 4, 5, 6, 7, 7,
            6, 5, 4, 3, 2, 1, 0
        ]
    );
    // Row 8
    assert_eq!(
        &target.screen_buffer[1024..1056],
        &[
            7, 6, 5, 4, 3, 2, 1, 0, 14, 13, 12, 11, 10, 9, 8, 7, 0, 1, 2, 3, 4, 5, 6, 7, 7, 8, 9,
            10, 11, 12, 13, 14
        ]
    );
    // Row 15
    assert_eq!(
        &target.screen_buffer[1920..1952],
        &[
            14, 13, 12, 11, 10, 9, 8, 7, 7, 6, 5, 4, 3, 2, 1, 0, 7, 8, 9, 10, 11, 12, 13, 14, 0,
            1, 2, 3, 4, 5, 6, 7
        ]
    );
}

#[test]
fn mock_calls_are_found_by_their_tags() {
    let mut target = MockTarget::new();
    target.log("outside");
    target.push_tag("outer");
    target.log("one");
    target.push_tag("inner");
    target.log("two");
    target.pop_tag();
    target.log("three");
    target.pop_tag();
    target.pop_tag();
    target.log("four");

    assert_eq!(
        target.get_calls_by_tag("outer"),
        vec![
            Call::Log { msg: "one".to_owned() },
            Call::Log { msg: "two".to_owned() },
            Call::Log { msg: "three".to_owned() },
        ]
    );
    assert_eq!(target.get_calls_by_tag("inner"), vec![Call::Log { msg: "two".to_owned() }]);
    assert_eq!(target.get_calls_by_tag("missing"), vec![]);

    target.clear_call_history();
    assert_eq!(target.get_calls_by_tag("outer"), vec![]);
}

#[test]
fn mock_storage_reads_back_what_was_written() {
    let mut target = MockTarget::new();
    target.push_tag("storage");
    target.write_storage(3, &[7, 8, 9]);
    assert_eq!(target.state, vec![0, 0, 0, 7, 8, 9]);
    assert_eq!(target.read_storage(3, 3), vec![7, 8, 9]);
    target.write_storage(1, &[5]);
    assert_eq!(target.read_storage(0, 6), vec![0, 5, 0, 7, 8, 9]);
    assert_eq!(
        target.get_calls_by_tag("storage"),
        vec![
            Call::WriteStorage { offset: 3, data: vec![7, 8, 9] },
            Call::WriteStorage { offset: 1, data: vec![5] },
        ]
    );
}

#[test]
fn mock_screen_size_is_fixed() {
    let target = MockTarget::new();
    assert_eq!(target.get_screen_size(), (128, 128));
}

#[test]
fn mock_calls_can_be_cloned() {
    let call = Call::WriteStorage { offset: 2, data: vec![1, 2] };
    assert_eq!(call.clone(), call);
    let call = Call::DrawTile {
        data: 1,
        layer: 2,
        tile_x_idx: 3,
        tile_y_idx: 4,
        src_x: 5,
        src_y: 6,
        flip_h: true,
        flip_v: false,
        rotate: true,
    };
    assert_eq!(call.clone(), call);
}
