use nt_ntdll::message::{FormatMessageOptions, MESSAGE_RESOURCE_ENTRY_HEADER, MessageArguments, STATUS_BUFFER_OVERFLOW, STATUS_INVALID_PARAMETER, STATUS_MESSAGE_NOT_FOUND, STATUS_RESOURCE_DATA_NOT_FOUND, find_message_entry, format_message};

fn push_u16(buf: &mut Vec<u8>, value: u16) {
    buf.extend_from_slice(&value.to_le_bytes());
}

fn push_u32(buf: &mut Vec<u8>, value: u32) {
    buf.extend_from_slice(&value.to_le_bytes());
}

fn push_entry(buf: &mut Vec<u8>, flags: u16, text: &[u8]) -> usize {
    let off = buf.len();
    push_u16(buf, (MESSAGE_RESOURCE_ENTRY_HEADER + text.len()) as u16);
    push_u16(buf, flags);
    buf.extend_from_slice(text);
    off
}

#[test]
fn finds_entry_by_message_id() {
    let mut table = Vec::new();
    push_u32(&mut table, 1); // NumberOfBlocks
    push_u32(&mut table, 100); // LowId
    push_u32(&mut table, 102); // HighId
    push_u32(&mut table, 16); // OffsetToEntries
    let first = push_entry(&mut table, 0, b"one");
    let second = push_entry(&mut table, 0, b"two");
    let third = push_entry(&mut table, 0, b"three");

    assert_eq!(first, 16);
    assert_eq!(find_message_entry(&table, 100), Ok(first));
    assert_eq!(find_message_entry(&table, 101), Ok(second));
    assert_eq!(find_message_entry(&table, 102), Ok(third));
}

#[test]
fn missing_ids_return_message_not_found() {
    let mut table = Vec::new();
    push_u32(&mut table, 1);
    push_u32(&mut table, 10);
    push_u32(&mut table, 10);
    push_u32(&mut table, 16);
    push_entry(&mut table, 0, b"x");

    assert_eq!(find_message_entry(&table, 9), Err(STATUS_MESSAGE_NOT_FOUND));
    assert_eq!(
        find_message_entry(&table, 11),
        Err(STATUS_MESSAGE_NOT_FOUND)
    );
}

#[test]
fn malformed_tables_return_resource_data_not_found() {
    assert_eq!(
        find_message_entry(&[], 1),
        Err(STATUS_RESOURCE_DATA_NOT_FOUND)
    );

    let mut table = Vec::new();
    push_u32(&mut table, 1);
    push_u32(&mut table, 1);
    push_u32(&mut table, 1);
    push_u32(&mut table, 2); // Offset points into the header.
    assert_eq!(
        find_message_entry(&table, 1),
        Err(STATUS_RESOURCE_DATA_NOT_FOUND)
    );

    let mut table = Vec::new();
    push_u32(&mut table, 1);
    push_u32(&mut table, 1);
    push_u32(&mut table, 1);
    push_u32(&mut table, 16);
    push_u16(&mut table, 3); // Entry length smaller than header.
    push_u16(&mut table, 0);
    assert_eq!(
        find_message_entry(&table, 1),
        Err(STATUS_RESOURCE_DATA_NOT_FOUND)
    );
}

struct Slots {
    values: Vec<u64>,
    position: usize,
}

impl MessageArguments for Slots {
    fn next_slot(&mut self) -> Option<u64> {
        let value = self.values.get(self.position).copied();
        self.position += usize::from(value.is_some());
        value
    }
}

fn wide(value: &str) -> Vec<u16> {
    value.encode_utf16().collect()
}

const WIDE_TEXT: u64 = 0x1000;
const ANSI_TEXT: u64 = 0x2000;

/// Renders the formats that the tests use. Text arguments are known by their slots.
fn render(format: &[u16], _ansi: bool, first: u64, second: u64, third: u64) -> Vec<u16> {
    let format = String::from_utf16(format).unwrap();
    let text = match format.as_str() {
        "%s" | "%S" => String::from(match first {
            WIDE_TEXT => "test",
            ANSI_TEXT => "ansi",
            _ => panic!("no text"),
        }),
        "%u" => format!("{first}"),
        "%04X" => format!("{first:04X}"),
        "%*.*I64x" => {
            let digits = format!("{:0width$x}", third, width = second as usize);
            format!("{:>width$}", digits, width = first as usize)
        }
        "%*.*u" => {
            let digits = format!("{:0width$}", third, width = second as usize);
            format!("{:>width$}", digits, width = first as usize)
        }
        "%**u" => String::from("*u"),
        "%0.3+*u" => String::from("+*u"),
        "%QQ" => String::from("QQ"),
        _ => panic!("unknown format"),
    };
    wide(&text)
}

fn format(
    message: &str,
    options: FormatMessageOptions,
    arguments: Option<&mut Slots>,
) -> (Vec<u16>, usize) {
    let mut output = vec![0xcccc; 256];
    let bytes = format_message(&wide(message), options, arguments, &mut output, render).unwrap();
    let end = output.iter().position(|unit| *unit == 0).unwrap();
    (output[..end].to_vec(), bytes)
}

#[test]
fn formats_controls_and_indexed_wide_or_ansi_strings() {
    let mut arguments = Slots {
        values: vec![
            WIDE_TEXT,
            ANSI_TEXT,
            0xbeef,
        ],
        position: 0,
    };
    let (output, bytes) = format(
        "%1 %2!S! %3!04X! %.%%%Z%n%t%r%!% ",
        FormatMessageOptions::default(),
        Some(&mut arguments),
    );
    assert_eq!(output, wide("test ansi BEEF .%Z\r\n\t\r! "));
    assert_eq!(bytes, (output.len() + 1) * 2);

    let mut ansi_arguments = Slots {
        values: vec![ANSI_TEXT, WIDE_TEXT],
        position: 0,
    };
    let (output, _) = format(
        "%1!s! %2!S!",
        FormatMessageOptions {
            arguments_are_ansi: true,
            ..FormatMessageOptions::default()
        },
        Some(&mut ansi_arguments),
    );
    assert_eq!(output, wide("ansi test"));
}

#[test]
fn caches_sequential_and_array_arguments_like_native() {
    let message = "%2!*.*I64x! %1!u! %4!u! %2!u!";
    let mut sequential = Slots {
        values: vec![19, 17, 15, 13, 11, 9],
        position: 0,
    };
    let (output, _) = format(
        message,
        FormatMessageOptions::default(),
        Some(&mut sequential),
    );
    assert_eq!(output, wide("  00000000000000d 19 11 17"));

    let mut array = Slots {
        values: vec![19, 17, 15, 13, 11, 9, 7],
        position: 0,
    };
    let (output, _) = format(
        message,
        FormatMessageOptions {
            arguments_are_an_array: true,
            ..FormatMessageOptions::default()
        },
        Some(&mut array),
    );
    assert_eq!(output, wide("  00000000000000d 19 13 17"));

    let mut repeated = Slots {
        values: vec![6, 4, 2, 5, 3, 1],
        position: 0,
    };
    let (output, _) = format(
        "%1!*.*u!,%1!*.*u!",
        FormatMessageOptions {
            arguments_are_an_array: true,
            ..FormatMessageOptions::default()
        },
        Some(&mut repeated),
    );
    assert_eq!(output, wide("  0002, 00003"));
}

#[test]
fn normalizes_newlines_wraps_and_flattens_at_maximum_width() {
    let (output, _) = format(
        "te st\nabc d\nfoo",
        FormatMessageOptions {
            maximum_width: 6,
            ..FormatMessageOptions::default()
        },
        None,
    );
    assert_eq!(output, wide("te st\r\nabc d\r\nfoo"));

    let (output, _) = format(
        "a\r\nb\rc\r\rd\r\r\ne",
        FormatMessageOptions::default(),
        None,
    );
    assert_eq!(output, wide("a\r\nb\r\nc\r\n\r\nd\r\n\r\ne"));

    let (output, _) = format(
        "te st\r\nabc d\n\nfoo\rbar",
        FormatMessageOptions {
            maximum_width: 0xff,
            ..FormatMessageOptions::default()
        },
        None,
    );
    assert_eq!(output, wide("te st abc d  foo bar"));
}

#[test]
fn preserves_ignore_insert_syntax_and_stops_at_percent_zero() {
    let (output, _) = format(
        "%1!x!%r%%%n%t",
        FormatMessageOptions {
            ignore_inserts: true,
            ..FormatMessageOptions::default()
        },
        None,
    );
    assert_eq!(output, wide("%1!x!\r%%\r\n\t"));
    let (output, _) = format(
        "ab%0cd",
        FormatMessageOptions {
            ignore_inserts: true,
            ..FormatMessageOptions::default()
        },
        None,
    );
    assert_eq!(output, wide("ab"));
}

#[test]
fn matches_literal_insert_and_control_overflow_shapes() {
    let mut literal = vec![0xcccc; 4];
    assert_eq!(
        format_message(
            &wide("testing"),
            FormatMessageOptions::default(),
            None::<&mut Slots>,
            &mut literal,
            render,
        ),
        Err(STATUS_BUFFER_OVERFLOW)
    );
    assert_eq!(literal, wide("test"));

    let mut arguments = Slots {
        values: vec![WIDE_TEXT],
        position: 0,
    };
    let mut insert = vec![0xcccc; 4];
    assert_eq!(
        format_message(
            &wide("%1"),
            FormatMessageOptions::default(),
            Some(&mut arguments),
            &mut insert,
            render,
        ),
        Err(STATUS_BUFFER_OVERFLOW)
    );
    assert_eq!(insert, vec![b't' as u16, b'e' as u16, b's' as u16, 0]);

    let mut control = vec![0xcccc; 3];
    assert_eq!(
        format_message(
            &wide("ab%n"),
            FormatMessageOptions::default(),
            None::<&mut Slots>,
            &mut control,
            render,
        ),
        Err(STATUS_BUFFER_OVERFLOW)
    );
    assert_eq!(control, vec![b'a' as u16, b'b' as u16, 0xcccc]);
}

#[test]
fn rejects_invalid_formats_and_uses_message_unknown_conversion_rules() {
    for message in ["abc%", "%1!unterminated", "aa%1!***u!"] {
        let mut output = [0xcccc; 64];
        let mut arguments = Slots {
            values: vec![34],
            position: 0,
        };
        assert_eq!(
            format_message(
                &wide(message),
                FormatMessageOptions::default(),
                Some(&mut arguments),
                &mut output,
                render,
            ),
            Err(STATUS_INVALID_PARAMETER)
        );
    }

    let mut arguments = Slots {
        values: vec![34, 0, 0, 0, 0],
        position: 0,
    };
    let (output, _) = format(
        "%1!**u! %1!0.3+*u! %1!QQ!",
        FormatMessageOptions::default(),
        Some(&mut arguments),
    );
    assert_eq!(output, wide("*u +*u QQ"));
}

#[test]
fn formatting_takes_just_the_slots_that_inserts_ask_for() {
    for (message, taken) in [("none", 0), ("%1!d!", 1), ("%2!d! %1!d!", 2), ("%1!*d!", 2)] {
        let mut arguments = Slots {
            values: vec![1, 2, 3, 4],
            position: 0,
        };
        let mut output = vec![0u16; 64];
        format_message(
            &wide(message),
            FormatMessageOptions::default(),
            Some(&mut arguments),
            &mut output,
            |_, _, _, _, _| wide("x"),
        )
        .unwrap();
        assert_eq!(arguments.position, taken);
    }
    // What the output has no room for was taken already.
    let mut arguments = Slots {
        values: vec![1, 2, 3, 4],
        position: 0,
    };
    let mut output = vec![0u16; 1];
    let full = format_message(
        &wide("%2!d!"),
        FormatMessageOptions::default(),
        Some(&mut arguments),
        &mut output,
        |_, _, _, _, _| wide("x"),
    );
    assert_eq!(full, Err(STATUS_BUFFER_OVERFLOW));
    assert_eq!(arguments.position, 2);
}
