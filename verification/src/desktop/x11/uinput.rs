//! The records of a kernel input device that acts as pointer or keyboard.

use vstd::prelude::*;

verus! {

/// What X keycodes are above the kernel's codes.
pub const X_KEYCODE_OFFSET: u8 = 8;

/// A record written to the device.
#[derive(Clone, Copy, Debug, PartialEq, Eq, Structural)]
pub struct Record {
    pub kind: u16,
    pub code: u16,
    pub value: i32,
}

/// A key or button that goes down or up.
pub open spec fn key_record(code: u16, press: bool) -> Record {
    Record {
        kind: 1,
        code,
        value: if press {
            1
        } else {
            0
        },
    }
}

/// A relative motion on an axis.
pub open spec fn axis_record(code: u16, value: i32) -> Record {
    Record { kind: 2, code, value }
}

/// The end of a frame.
pub open spec fn sync_record() -> Record {
    Record { kind: 0, code: 0, value: 0 }
}

fn make_key(code: u16, press: bool) -> (r: Record)
    ensures
        r == key_record(code, press),
{
    Record {
        kind: 1,
        code,
        value: if press {
            1
        } else {
            0
        },
    }
}

fn sync() -> (r: Record)
    ensures
        r == sync_record(),
{
    Record { kind: 0, code: 0, value: 0 }
}

/// The kernel's code of an X button.
pub open spec fn button_code(button: u8) -> Option<u16> {
    if button == 1 {
        Some(272)
    } else if button == 2 {
        Some(274)
    } else if button == 3 {
        Some(273)
    } else {
        None
    }
}

/// The frame in which an X button goes down or up; buttons other than the first
/// three have none.
pub fn button(number: u8, press: bool) -> (frame: Option<Vec<Record>>)
    ensures
        match frame {
            Some(list) => button_code(number) matches Some(code) && list@ == seq![
                key_record(code, press),
                sync_record(),
            ],
            None => button_code(number) is None,
        },
{
    let code: u16 = if number == 1 {
        272
    } else if number == 2 {
        274
    } else if number == 3 {
        273
    } else {
        return None;
    };
    let mut list: Vec<Record> = Vec::new();
    list.push(make_key(code, press));
    list.push(sync());
    assert(list@ =~= seq![key_record(code, press), sync_record()]);
    Some(list)
}

/// The frame of a motion: an axis without motion is left out, and without any
/// motion there is no frame.
pub open spec fn motion_frame(dx: i32, dy: i32) -> Seq<Record> {
    let none = Seq::<Record>::empty();
    if dx == 0 && dy == 0 {
        none
    } else {
        (if dx != 0 {
            seq![axis_record(0, dx)]
        } else {
            none
        }) + (if dy != 0 {
            seq![axis_record(1, dy)]
        } else {
            none
        }) + seq![sync_record()]
    }
}

/// The frame of a relative motion.
pub fn motion(dx: i32, dy: i32) -> (frame: Vec<Record>)
    ensures
        frame@ == motion_frame(dx, dy),
{
    let mut list: Vec<Record> = Vec::new();
    if dx == 0 && dy == 0 {
        return list;
    }
    if dx != 0 {
        list.push(Record { kind: 2, code: 0, value: dx });
    }
    if dy != 0 {
        list.push(Record { kind: 2, code: 1, value: dy });
    }
    list.push(sync());
    assert(list@ =~= motion_frame(dx, dy));
    list
}

/// The frame of a turn of a wheel: up and right are positive.
pub fn wheel(horizontal: bool, value: i32) -> (frame: Vec<Record>)
    ensures
        frame@ == seq![
            axis_record(
                if horizontal {
                    6u16
                } else {
                    8u16
                },
                value,
            ),
            sync_record(),
        ],
{
    let code: u16 = if horizontal {
        6
    } else {
        8
    };
    let mut list: Vec<Record> = Vec::new();
    list.push(Record { kind: 2, code, value });
    list.push(sync());
    assert(list@ =~= seq![axis_record(code, value), sync_record()]);
    list
}

/// The kernel's code of an X keycode; the first eight keycodes have none.
pub fn evdev_code(keycode: u8) -> (code: Option<u16>)
    ensures
        code == (if keycode >= X_KEYCODE_OFFSET {
            Some((keycode - X_KEYCODE_OFFSET) as u16)
        } else {
            None
        }),
{
    if keycode >= X_KEYCODE_OFFSET {
        Some((keycode - X_KEYCODE_OFFSET) as u16)
    } else {
        None
    }
}

/// The frame in which the key of an X keycode goes down or up.
pub fn key(keycode: u8, press: bool) -> (frame: Option<Vec<Record>>)
    ensures
        match frame {
            Some(list) => keycode >= X_KEYCODE_OFFSET && list@ == seq![
                key_record((keycode - X_KEYCODE_OFFSET) as u16, press),
                sync_record(),
            ],
            None => keycode < X_KEYCODE_OFFSET,
        },
{
    match evdev_code(keycode) {
        Some(code) => {
            let mut list: Vec<Record> = Vec::new();
            list.push(make_key(code, press));
            list.push(sync());
            assert(list@ =~= seq![key_record(code, press), sync_record()]);
            Some(list)
        },
        None => None,
    }
}

/// The name of a device as the kernel takes it: 80 bytes, cut so that a zero
/// stands at the end, and filled up with zeros.
pub fn setup_name(name: &[u8]) -> (out: Vec<u8>)
    ensures
        out@ == Seq::new(
            80,
            |i: int|
                if i < name@.len() && i < 79 {
                    name@[i]
                } else {
                    0u8
                },
        ),
{
    let mut out: Vec<u8> = Vec::new();
    let mut i: usize = 0;
    while i < 80
        invariant
            i <= 80,
            out@ == Seq::new(
                i as nat,
                |k: int|
                    if k < name@.len() && k < 79 {
                        name@[k]
                    } else {
                        0u8
                    },
            ),
        decreases 80 - i,
    {
        let b: u8 = if i < name.len() && i < 79 {
            name[i]
        } else {
            0
        };
        let ghost before = out@;
        out.push(b);
        assert(out@ =~= Seq::new(
            (i + 1) as nat,
            |k: int|
                if k < name@.len() && k < 79 {
                    name@[k]
                } else {
                    0u8
                },
        ));
        i = i + 1;
    }
    out
}

/// The number of a request to a device driver.
pub fn ioc(direction: u32, driver: u8, nr: u8, size: u32) -> (request: u32)
    requires
        direction < 4,
        size < 0x4000,
    ensures
        request == direction * 0x4000_0000 + size * 0x1_0000 + driver * 0x100 + nr,
{
    direction * 0x4000_0000 + size * 0x1_0000 + driver as u32 * 0x100 + nr as u32
}

} // verus!
