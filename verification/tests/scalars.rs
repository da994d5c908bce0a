use coproto::common::delimiters::{BUFFER_END, END_RECORD, START_RECORD, VALUE_DELIMITER};
use coproto::common::errors::{DecodingErrors, EncodingErrors, TypeError};
use coproto::common::{join_parts, BuffPart, CoprotoType, ValueOrBuffer};
use coproto::types::{BigInt, Boolean, Decimal, Double, Integer, Null, String};

fn decimal(value: f64) -> Decimal {
    Decimal {
        negative: value < 0f64,
        text: value.abs().to_string(),
    }
}

fn float(value: &Decimal) -> f64 {
    let abs_value: f64 = value.text.parse().unwrap();
    if value.negative {
        -abs_value
    } else {
        abs_value
    }
}

fn decoding_cause<T>(result: Result<T, TypeError>) -> DecodingErrors {
    match result {
        Ok(_) => panic!("decoding was expected to fail"),
        Err(TypeError::Encoding(_)) => panic!("an encoding error came out of a decoder"),
        Err(TypeError::Decoding(error)) => error.cause,
    }
}

fn encoding_origin<T>(result: Result<T, TypeError>) -> EncodingErrors {
    match result {
        Ok(_) => panic!("encoding was expected to fail"),
        Err(TypeError::Decoding(_)) => panic!("a decoding error came out of an encoder"),
        Err(TypeError::Encoding(error)) => error.origin,
    }
}

#[test]
fn bigint_test_positive() {
    let positive_encoding = BigInt::new(ValueOrBuffer::Value(1000));

    let positive_encoding_buff = positive_encoding.buff.unwrap();

    let positive_decoding = BigInt::new(ValueOrBuffer::Buffer(positive_encoding_buff.clone()));

    let positive_decoding_buff = positive_decoding.buff.unwrap();

    assert_eq!(
        positive_encoding_buff,
        vec![b'(', b'+', START_RECORD, 1, 0, 0, 0, END_RECORD, BUFFER_END]
    );

    assert_eq!(positive_encoding.value_of.unwrap(), 1000);

    assert_eq!(
        positive_decoding_buff,
        vec![b'(', b'+', START_RECORD, 1, 0, 0, 0, END_RECORD, BUFFER_END]
    );

    assert_eq!(positive_decoding.value_of.unwrap(), 1000);
}

#[test]
fn bigint_no_signal() {
    let positive_decoding = BigInt::new(ValueOrBuffer::Buffer(vec![
        b'(',
        START_RECORD,
        1,
        0,
        0,
        0,
        END_RECORD,
        BUFFER_END,
    ]));
    assert_eq!(positive_decoding.value_of.unwrap(), 1000);
}

#[test]
fn bigint_test_negative() {
    let negative_encoding = BigInt::new(ValueOrBuffer::Value(-1000));

    let negative_encoding_buff = negative_encoding.buff.unwrap();

    let negative_decoding = BigInt::new(ValueOrBuffer::Buffer(negative_encoding_buff.clone()));

    let negative_decoding_buff = negative_decoding.buff.unwrap();

    assert_eq!(
        negative_encoding_buff,
        vec![b'(', b'-', START_RECORD, 1, 0, 0, 0, END_RECORD, BUFFER_END]
    );

    assert_eq!(negative_encoding.value_of.unwrap(), -1000);

    assert_eq!(
        negative_decoding_buff,
        vec![b'(', b'-', START_RECORD, 1, 0, 0, 0, END_RECORD, BUFFER_END]
    );

    assert_eq!(negative_decoding.value_of.unwrap(), -1000);
}

#[test]
fn bigint_test_encoding_decoding() {
    let positive_encoding = BigInt::new(ValueOrBuffer::Value(1000));
    let positive_buff = positive_encoding.buff.unwrap();
    let positive_decoding = BigInt::new(ValueOrBuffer::Buffer(positive_buff));

    assert_eq!(
        positive_decoding.value_of.unwrap(),
        positive_encoding.value_of.unwrap()
    );

    let negative_encoding = BigInt::new(ValueOrBuffer::Value(-1000));
    let negative_buff = negative_encoding.buff.unwrap();
    let negative_decoding = BigInt::new(ValueOrBuffer::Buffer(negative_buff));

    assert_eq!(
        negative_decoding.value_of.unwrap(),
        negative_encoding.value_of.unwrap()
    );
}

#[test]
fn bigint_wrong_buffer() {
    let buff = vec![b'?', START_RECORD, 1, 0, 0, 0, END_RECORD, BUFFER_END];

    let wrong = BigInt::new(ValueOrBuffer::Buffer(buff));

    let rejected = match wrong.value_of {
        Ok(_) => false,
        Err(e) => match e {
            TypeError::Encoding(_) => false,
            TypeError::Decoding(decoding_error) => {
                matches!(
                    decoding_error.cause,
                    DecodingErrors::FirstByteError(_, _, _)
                )
            }
        },
    };

    assert!(rejected);
}

#[test]
fn bigint_new_keeps_tag_and_sign() {
    let made = BigInt::new(ValueOrBuffer::Value(-5));
    assert_eq!(made.first_byte, b'(');
    assert_eq!(made.first_char, '(');
    assert_eq!(made.modifier_byte, Some(b'-'));
    assert_eq!(made.modifier_char, Some('-'));
    let read = BigInt::new(ValueOrBuffer::Buffer(vec![
        b'(',
        b'+',
        START_RECORD,
        7,
        END_RECORD,
    ]));
    assert_eq!(read.modifier_byte, Some(b'+'));
    assert_eq!(read.modifier_char, Some('+'));
    let failed = BigInt::new(ValueOrBuffer::Buffer(vec![b'?']));
    assert_eq!(failed.modifier_byte, None);
    assert_eq!(failed.modifier_char, None);
}

#[test]
fn bigint_round_trips_at_the_limits() {
    for value in [0, 1, -1, 9, 10, 1234567890123456789, i64::MAX, i64::MIN, i64::MIN + 1] {
        let buff = BigInt::encode(value).unwrap();
        assert_eq!(buff[0], b'(');
        assert_eq!(BigInt::decode(buff).unwrap(), value);
    }
}

#[test]
fn bigint_zero_has_no_digits() {
    assert_eq!(
        BigInt::encode(0).unwrap(),
        vec![b'(', b'+', START_RECORD, END_RECORD, BUFFER_END]
    );
    assert_eq!(
        BigInt::decode(vec![b'(', START_RECORD, END_RECORD]).unwrap(),
        0
    );
    assert_eq!(
        BigInt::decode(vec![b'(', b'-', START_RECORD, END_RECORD]).unwrap(),
        0
    );
}

#[test]
fn bigint_largest_magnitudes() {
    let max_digits = [9, 2, 2, 3, 3, 7, 2, 0, 3, 6, 8, 5, 4, 7, 7, 5, 8, 0, 7];
    let mut buff = vec![b'(', b'+', START_RECORD];
    buff.extend_from_slice(&max_digits);
    buff.push(END_RECORD);
    assert_eq!(BigInt::decode(buff).unwrap(), i64::MAX);

    let mut over = vec![b'(', b'+', START_RECORD];
    over.extend_from_slice(&max_digits);
    *over.last_mut().unwrap() = 8;
    over.push(END_RECORD);
    assert!(matches!(
        decoding_cause(BigInt::decode(over.clone())),
        DecodingErrors::SizeConversionError(_, _)
    ));

    over[1] = b'-';
    assert_eq!(BigInt::decode(over.clone()).unwrap(), i64::MIN);

    let last = over.len() - 2;
    over[last] = 9;
    assert!(matches!(
        decoding_cause(BigInt::decode(over)),
        DecodingErrors::SizeConversionError(_, _)
    ));
}

#[test]
fn bigint_overflows_on_long_payload() {
    let mut buff = vec![b'(', b'+', START_RECORD];
    buff.extend_from_slice(&[9; 40]);
    buff.push(END_RECORD);
    assert!(matches!(
        decoding_cause(BigInt::decode(buff)),
        DecodingErrors::SizeConversionError(_, _)
    ));
}

#[test]
fn bigint_takes_leading_zeros() {
    let mut buff = vec![b'(', b'+', START_RECORD];
    buff.extend_from_slice(&[0; 40]);
    buff.extend_from_slice(&[4, 2]);
    buff.push(END_RECORD);
    assert_eq!(BigInt::decode(buff).unwrap(), 42);
}

#[test]
fn bigint_rejects_a_byte_that_is_no_digit() {
    let buff = vec![b'(', b'+', START_RECORD, 1, 10, 2, 11, END_RECORD];
    match decoding_cause(BigInt::decode(buff)) {
        DecodingErrors::InvalidByte(byte, position, expected) => {
            assert_eq!(byte, 10);
            assert_eq!(position, 1);
            assert_eq!(expected, vec![0, 1, 2, 3, 4, 5, 6, 7, 8, 9]);
        }
        other => panic!("unexpected cause {:?}", other),
    }
}

#[test]
fn bigint_structure_errors() {
    assert!(matches!(
        decoding_cause(BigInt::decode(vec![])),
        DecodingErrors::NotEnough(_, 4, 0)
    ));
    assert!(matches!(
        decoding_cause(BigInt::decode(vec![b'('])),
        DecodingErrors::NotEnough(_, 4, 1)
    ));
    assert!(matches!(
        decoding_cause(BigInt::decode(vec![b'(', b'+'])),
        DecodingErrors::NotEnough(_, 4, 2)
    ));
    assert!(matches!(
        decoding_cause(BigInt::decode(vec![
            b'(',
            START_RECORD,
            1,
            END_RECORD,
            START_RECORD,
            2,
            END_RECORD
        ])),
        DecodingErrors::TooMuch(_, 1, 2)
    ));
}

#[test]
fn decoding_error_names_buffer_and_kind() {
    let buff = vec![b'?', START_RECORD, END_RECORD];
    match BigInt::decode(buff.clone()) {
        Err(TypeError::Decoding(error)) => {
            assert_eq!(error.from, buff);
            assert_eq!(error.to, "BigInt");
            match error.cause {
                DecodingErrors::FirstByteError(kind, expected, found) => {
                    assert_eq!(kind, "BigInt");
                    assert_eq!(expected, b'(');
                    assert_eq!(found, b'?');
                }
                other => panic!("unexpected cause {:?}", other),
            }
        }
        other => panic!("unexpected result {:?}", other),
    }
}

#[test]
fn trailing_bytes_after_the_record_do_not_count() {
    assert_eq!(
        BigInt::decode(vec![b'(', b'-', START_RECORD, 4, 2, END_RECORD, BUFFER_END, 1, 2, b'(']).unwrap(),
        -42
    );
    assert_eq!(
        BigInt::decode(vec![b'(', b'-', START_RECORD, 4, 2, END_RECORD]).unwrap(),
        -42
    );
}

#[test]
fn unmatched_delimiters_after_the_record_are_malformed() {
    assert!(matches!(
        decoding_cause(BigInt::decode(vec![
            b'(',
            b'-',
            START_RECORD,
            4,
            2,
            END_RECORD,
            BUFFER_END,
            END_RECORD
        ])),
        DecodingErrors::NotEnough(_, 4, 8)
    ));
    assert!(matches!(
        decoding_cause(BigInt::decode(vec![
            b'(',
            b'-',
            START_RECORD,
            4,
            2,
            END_RECORD,
            START_RECORD
        ])),
        DecodingErrors::NotEnough(_, 4, 7)
    ));
}

#[test]
fn integer_bytes_and_values() {
    assert_eq!(
        Integer::encode(1000).unwrap(),
        vec![b':', b'+', START_RECORD, 1, 0, 0, 0, END_RECORD, BUFFER_END]
    );
    assert_eq!(
        Integer::encode(-1000).unwrap(),
        vec![b':', b'-', START_RECORD, 1, 0, 0, 0, END_RECORD, BUFFER_END]
    );
    for value in [0, 1, -1, 10, 123, i32::MAX, i32::MIN, i32::MIN + 1] {
        let buff = Integer::encode(value).unwrap();
        assert_eq!(buff[0], b':');
        assert_eq!(Integer::decode(buff).unwrap(), value);
    }
    assert_eq!(
        Integer::decode(vec![b':', START_RECORD, 1, 0, END_RECORD]).unwrap(),
        10
    );
    let made = Integer::new(ValueOrBuffer::Value(-3));
    assert_eq!(made.first_byte, b':');
    assert_eq!(made.first_char, ':');
    assert_eq!(made.modifier_byte, Some(b'-'));
    assert_eq!(made.value_of.unwrap(), -3);
}

#[test]
fn integer_overflow_and_errors() {
    let over = vec![b':', b'+', START_RECORD, 2, 1, 4, 7, 4, 8, 3, 6, 4, 8, END_RECORD];
    assert!(matches!(
        decoding_cause(Integer::decode(over.clone())),
        DecodingErrors::SizeConversionError(_, _)
    ));
    let mut min = over;
    min[1] = b'-';
    assert_eq!(Integer::decode(min.clone()).unwrap(), i32::MIN);
    let last = min.len() - 2;
    min[last] = 9;
    assert!(matches!(
        decoding_cause(Integer::decode(min)),
        DecodingErrors::SizeConversionError(_, _)
    ));
    assert!(matches!(
        decoding_cause(Integer::decode(vec![b'?', START_RECORD, END_RECORD])),
        DecodingErrors::FirstByteError(_, b':', b'?')
    ));
    assert!(matches!(
        decoding_cause(Integer::decode(vec![b':', START_RECORD, 77, END_RECORD])),
        DecodingErrors::InvalidByte(77, 0, _)
    ));
}

#[test]
fn boolean_test_encoding_decoding() {
    let true_encoding = Boolean::new(ValueOrBuffer::Value(true));
    let true_buff = true_encoding.buff.unwrap();
    let true_decoding = Boolean::new(ValueOrBuffer::Buffer(true_buff));

    assert_eq!(
        true_decoding.value_of.unwrap(),
        true_encoding.value_of.unwrap()
    );

    let false_encoding = Boolean::new(ValueOrBuffer::Value(false));
    let false_buff = false_encoding.buff.unwrap();
    let false_decoding = Boolean::new(ValueOrBuffer::Buffer(false_buff));

    assert_eq!(
        false_decoding.value_of.unwrap(),
        false_encoding.value_of.unwrap()
    );
}

#[test]
fn boolean_test_invalid_byte() {
    let parts: Vec<BuffPart> = vec![
        BuffPart::Val(b'#'),
        BuffPart::Val(START_RECORD),
        BuffPart::Val(2),
        BuffPart::Val(END_RECORD),
        BuffPart::Val(BUFFER_END),
    ];

    let invalid_byte = Boolean::new(ValueOrBuffer::Buffer(join_parts(parts)));

    let rejected = match invalid_byte.value_of {
        Ok(_) => false,
        Err(e) => match e {
            TypeError::Encoding(_) => false,
            TypeError::Decoding(decoding_error) => {
                matches!(decoding_error.cause, DecodingErrors::InvalidByte(_, _, _))
            }
        },
    };

    assert!(rejected);
}

#[test]
fn boolean_wrong_buffer() {
    let buff = vec![b'?', START_RECORD, 0, END_RECORD, BUFFER_END];

    let wrong = Boolean::new(ValueOrBuffer::Buffer(buff));

    let rejected = match wrong.value_of {
        Ok(_) => false,
        Err(e) => match e {
            TypeError::Encoding(_) => false,
            TypeError::Decoding(decoding_error) => {
                matches!(
                    decoding_error.cause,
                    DecodingErrors::FirstByteError(_, _, _)
                )
            }
        },
    };

    assert!(rejected);
}

#[test]
fn boolean_bytes_and_errors() {
    assert_eq!(
        Boolean::encode(true).unwrap(),
        vec![b'#', START_RECORD, 1, END_RECORD, BUFFER_END]
    );
    assert_eq!(
        Boolean::encode(false).unwrap(),
        vec![b'#', START_RECORD, 0, END_RECORD, BUFFER_END]
    );
    match decoding_cause(Boolean::decode(vec![b'#', START_RECORD, 2, END_RECORD, BUFFER_END])) {
        DecodingErrors::InvalidByte(byte, position, expected) => {
            assert_eq!(byte, 2);
            assert_eq!(position, 0);
            assert_eq!(expected, vec![1, 0]);
        }
        other => panic!("unexpected cause {:?}", other),
    }
    assert!(matches!(
        decoding_cause(Boolean::decode(vec![b'#', START_RECORD, END_RECORD])),
        DecodingErrors::NotEnough(_, 4, 3)
    ));
    assert!(matches!(
        decoding_cause(Boolean::decode(vec![b'#'])),
        DecodingErrors::NotEnough(_, 4, 1)
    ));
    assert!(matches!(
        decoding_cause(Boolean::decode(vec![b'#', START_RECORD, 1, 0, END_RECORD])),
        DecodingErrors::TooMuch(_, 1, 2)
    ));
    let made = Boolean::new(ValueOrBuffer::Value(true));
    assert_eq!(made.first_byte, b'#');
    assert_eq!(made.first_char, '#');
    assert_eq!(made.modifier_byte, None);
    assert_eq!(made.modifier_char, None);
}

#[test]
fn double_test_positive() {
    let positive_encoding = Double::new(ValueOrBuffer::Value(decimal(123.456)));

    let positive_encoding_buff = positive_encoding.buff.unwrap();

    let positive_decoding = Double::new(ValueOrBuffer::Buffer(positive_encoding_buff.clone()));

    let positive_decoding_buff = positive_decoding.buff.unwrap();

    assert_eq!(
        positive_encoding_buff,
        vec![
            b';',
            b'+',
            START_RECORD,
            1,
            2,
            3,
            b'.',
            4,
            5,
            6,
            END_RECORD,
            BUFFER_END
        ]
    );

    assert_eq!(float(&positive_encoding.value_of.unwrap()), 123.456);

    assert_eq!(
        positive_decoding_buff,
        vec![
            b';',
            b'+',
            START_RECORD,
            1,
            2,
            3,
            b'.',
            4,
            5,
            6,
            END_RECORD,
            BUFFER_END
        ]
    );

    assert_eq!(float(&positive_decoding.value_of.unwrap()), 123.456);
}

#[test]
fn double_no_signal() {
    let positive_decoding = Double::new(ValueOrBuffer::Buffer(vec![
        b';',
        START_RECORD,
        1,
        2,
        3,
        b'.',
        4,
        5,
        6,
        END_RECORD,
        BUFFER_END,
    ]));
    assert_eq!(float(&positive_decoding.value_of.unwrap()), 123.456);
}

#[test]
fn double_test_negative() {
    let negative_encoding = Double::new(ValueOrBuffer::Value(decimal(-123.456)));

    let negative_encoding_buff = negative_encoding.buff.unwrap();

    let negative_decoding = Double::new(ValueOrBuffer::Buffer(negative_encoding_buff.clone()));

    let negative_decoding_buff = negative_decoding.buff.unwrap();

    assert_eq!(
        negative_encoding_buff,
        vec![
            b';',
            b'-',
            START_RECORD,
            1,
            2,
            3,
            b'.',
            4,
            5,
            6,
            END_RECORD,
            BUFFER_END
        ]
    );

    assert_eq!(float(&negative_encoding.value_of.unwrap()), -123.456);

    assert_eq!(
        negative_decoding_buff,
        vec![
            b';',
            b'-',
            START_RECORD,
            1,
            2,
            3,
            b'.',
            4,
            5,
            6,
            END_RECORD,
            BUFFER_END
        ]
    );

    assert_eq!(float(&negative_decoding.value_of.unwrap()), -123.456);
}

#[test]
fn double_test_encoding_decoding() {
    let positive_encoding = Double::new(ValueOrBuffer::Value(decimal(123.456)));
    let positive_buff = positive_encoding.buff.unwrap();
    let positive_decoding = Double::new(ValueOrBuffer::Buffer(positive_buff));

    assert_eq!(
        float(&positive_decoding.value_of.unwrap()),
        float(&positive_encoding.value_of.unwrap())
    );

    let negative_encoding = Double::new(ValueOrBuffer::Value(decimal(-123.456)));
    let negative_buff = negative_encoding.buff.unwrap();
    let negative_decoding = Double::new(ValueOrBuffer::Buffer(negative_buff));

    assert_eq!(
        float(&negative_decoding.value_of.unwrap()),
        float(&negative_encoding.value_of.unwrap())
    );
}

#[test]
fn double_wrong_buffer() {
    let buff = vec![
        b'?',
        START_RECORD,
        1,
        2,
        3,
        b'.',
        4,
        5,
        6,
        END_RECORD,
        BUFFER_END,
    ];

    let wrong = Double::new(ValueOrBuffer::Buffer(buff));

    let rejected = match wrong.value_of {
        Ok(_) => false,
        Err(e) => match e {
            TypeError::Encoding(_) => false,
            TypeError::Decoding(decoding_error) => {
                matches!(
                    decoding_error.cause,
                    DecodingErrors::FirstByteError(_, _, _)
                )
            }
        },
    };

    assert!(rejected);
}

#[test]
fn double_round_trips_through_text() {
    for value in [
        0.0,
        0.5,
        1.05,
        -1.05,
        123.0,
        1.2345,
        0.000001,
        1e21,
        -1e-7,
        f64::MAX,
        f64::MIN_POSITIVE,
    ] {
        let sent = decimal(value);
        let buff = Double::encode(sent.clone()).unwrap();
        assert_eq!(buff[0], b';');
        let received = Double::decode(buff).unwrap();
        assert_eq!(received, sent);
        assert_eq!(float(&received), value);
    }
}

#[test]
fn double_keeps_leading_zeros_of_the_fraction() {
    assert_eq!(
        Double::encode(decimal(1.05)).unwrap(),
        vec![b';', b'+', START_RECORD, 1, b'.', 0, 5, END_RECORD, BUFFER_END]
    );
    assert_eq!(
        Double::encode(decimal(-7.0)).unwrap(),
        vec![b';', b'-', START_RECORD, 7, END_RECORD, BUFFER_END]
    );
}

#[test]
fn double_rejects_text_that_is_no_decimal_number() {
    for text in ["", ".", "1.2.3", "1e5", "NaN", "inf", "-1", "1,5", "١٢٣", " 1"] {
        let value = Decimal {
            negative: false,
            text: text.to_string(),
        };
        match Double::encode(value) {
            Err(TypeError::Encoding(error)) => {
                assert_eq!(error.from, text);
                assert_eq!(error.to, "Double");
                assert!(matches!(error.origin, EncodingErrors::InvalidValue(_)));
            }
            other => panic!("unexpected result {:?} for {:?}", other, text),
        }
    }
    assert!(matches!(
        encoding_origin(Double::encode(decimal(f64::NAN))),
        EncodingErrors::InvalidValue(_)
    ));
    assert!(matches!(
        encoding_origin(Double::encode(decimal(f64::INFINITY))),
        EncodingErrors::InvalidValue(_)
    ));
}

#[test]
fn double_takes_a_point_at_either_end() {
    let leading = Double::decode(vec![b';', START_RECORD, b'.', 5, END_RECORD]).unwrap();
    assert_eq!(leading.text, ".5");
    assert_eq!(float(&leading), 0.5);
    let trailing = Double::decode(vec![b';', b'-', START_RECORD, 5, b'.', END_RECORD]).unwrap();
    assert_eq!(trailing.text, "5.");
    assert_eq!(float(&trailing), -5.0);
}

#[test]
fn double_payload_errors() {
    match decoding_cause(Double::decode(vec![b';', START_RECORD, 1, b'.', 2, b'.', 3, END_RECORD])) {
        DecodingErrors::InvalidByte(byte, position, expected) => {
            assert_eq!(byte, b'.');
            assert_eq!(position, 3);
            assert_eq!(expected, vec![0, 1, 2, 3, 4, 5, 6, 7, 8, 9]);
        }
        other => panic!("unexpected cause {:?}", other),
    }
    match decoding_cause(Double::decode(vec![b';', START_RECORD, 1, b'1', END_RECORD])) {
        DecodingErrors::InvalidByte(byte, position, expected) => {
            assert_eq!(byte, b'1');
            assert_eq!(position, 1);
            assert_eq!(expected, vec![0, 1, 2, 3, 4, 5, 6, 7, 8, 9, b'.']);
        }
        other => panic!("unexpected cause {:?}", other),
    }
    assert!(matches!(
        decoding_cause(Double::decode(vec![b';', START_RECORD, END_RECORD])),
        DecodingErrors::NotEnough(_, 1, 0)
    ));
    assert!(matches!(
        decoding_cause(Double::decode(vec![b';', START_RECORD, b'.', END_RECORD])),
        DecodingErrors::NotEnough(_, 1, 0)
    ));
    assert!(matches!(
        decoding_cause(Double::decode(vec![b';', b'+'])),
        DecodingErrors::NotEnough(_, 4, 2)
    ));
    assert!(matches!(
        decoding_cause(Double::decode(vec![
            b';',
            START_RECORD,
            1,
            END_RECORD,
            START_RECORD,
            END_RECORD
        ])),
        DecodingErrors::TooMuch(_, 1, 2)
    ));
}

#[test]
fn double_new_keeps_tag_and_sign() {
    let made = Double::new(ValueOrBuffer::Value(decimal(-0.25)));
    assert_eq!(made.first_byte, b';');
    assert_eq!(made.first_char, ';');
    assert_eq!(made.modifier_byte, Some(b'-'));
    assert_eq!(made.modifier_char, Some('-'));
    let read = Double::new(ValueOrBuffer::Buffer(vec![b';', START_RECORD, 2, END_RECORD]));
    assert_eq!(read.modifier_byte, Some(b'+'));
    assert_eq!(read.modifier_char, Some('+'));
    let failed = Double::new(ValueOrBuffer::Buffer(vec![b';', START_RECORD, END_RECORD]));
    assert_eq!(failed.modifier_byte, None);
    assert_eq!(failed.modifier_char, None);
}

#[test]
fn null_test_encoding_decoding() {
    let null_encoding = Null::new(ValueOrBuffer::Value(None));
    let null_buff = null_encoding.buff.unwrap();
    let null_decoding = Null::new(ValueOrBuffer::Buffer(null_buff));

    assert_eq!(
        null_decoding.value_of.unwrap(),
        null_encoding.value_of.unwrap()
    );
}

#[test]
fn null_test_invalid_byte() {
    let parts: Vec<BuffPart> = vec![
        BuffPart::Val(b'('),
        BuffPart::Val(START_RECORD),
        BuffPart::Val(2),
        BuffPart::Val(END_RECORD),
        BuffPart::Val(BUFFER_END),
    ];

    let invalid_byte = Null::new(ValueOrBuffer::Buffer(join_parts(parts)));

    assert!(invalid_byte.value_of.is_err());

    let _ = match invalid_byte.value_of {
        Ok(_) => false,
        Err(e) => match e {
            TypeError::Encoding(_) => false,
            TypeError::Decoding(decoding_error) => {
                matches!(decoding_error.cause, DecodingErrors::TooMuch(_, _, _))
            }
        },
    };
}

#[test]
fn null_wrong_buffer() {
    let buff = vec![b'?', START_RECORD, 0, END_RECORD, BUFFER_END];

    let wrong = Null::new(ValueOrBuffer::Buffer(buff));

    let rejected = match wrong.value_of {
        Ok(_) => false,
        Err(e) => match e {
            TypeError::Encoding(_) => false,
            TypeError::Decoding(decoding_error) => {
                matches!(
                    decoding_error.cause,
                    DecodingErrors::FirstByteError(_, _, _)
                )
            }
        },
    };

    assert!(rejected);
}

#[test]
fn null_bytes_and_errors() {
    assert_eq!(
        Null::encode(None).unwrap(),
        vec![b'-', START_RECORD, END_RECORD, BUFFER_END]
    );
    match Null::encode(Some(())) {
        Err(TypeError::Encoding(error)) => {
            assert_eq!(error.to, "Null");
            assert!(matches!(error.origin, EncodingErrors::InvalidValue(_)));
        }
        other => panic!("unexpected result {:?}", other),
    }
    assert!(matches!(
        decoding_cause(Null::decode(vec![b'-', START_RECORD, 2, END_RECORD, BUFFER_END])),
        DecodingErrors::TooMuch(_, 0, 1)
    ));
    assert!(matches!(
        decoding_cause(Null::decode(vec![
            b'-',
            START_RECORD,
            END_RECORD,
            START_RECORD,
            END_RECORD
        ])),
        DecodingErrors::TooMuch(_, 1, 2)
    ));
    assert_eq!(Null::decode(vec![b'-']).unwrap(), None);
    let made = Null::new(ValueOrBuffer::Value(None));
    assert_eq!(made.first_byte, b'-');
    assert_eq!(made.first_char, '-');
    assert_eq!(made.modifier_byte, None);
}

#[test]
fn string_test_encoding_decoding() {
    let string_encoding = String::new(ValueOrBuffer::Value(
        "Hello, fellow rustacean!".to_string(),
    ));
    let string_buff = string_encoding.buff.unwrap();
    let string_decoding = String::new(ValueOrBuffer::Buffer(string_buff));

    assert_eq!(
        string_decoding.value_of.unwrap(),
        string_encoding.value_of.unwrap()
    );
}

#[test]
fn string_wrong_buffer() {
    let buff = vec![b'?', START_RECORD, 0, END_RECORD, BUFFER_END];

    let wrong = String::new(ValueOrBuffer::Buffer(buff));

    let rejected = match wrong.value_of {
        Ok(_) => false,
        Err(e) => match e {
            TypeError::Encoding(_) => false,
            TypeError::Decoding(decoding_error) => {
                matches!(
                    decoding_error.cause,
                    DecodingErrors::FirstByteError(_, _, _)
                )
            }
        },
    };

    assert!(rejected);
}

#[test]
fn string_bytes_and_errors() {
    assert_eq!(
        String::encode("hi".to_string()).unwrap(),
        vec![b'+', START_RECORD, b'h', b'i', END_RECORD, BUFFER_END]
    );
    assert_eq!(
        String::encode("".to_string()).unwrap(),
        vec![b'+', START_RECORD, END_RECORD, BUFFER_END]
    );
    assert_eq!(
        String::decode(vec![b'+', START_RECORD, b'h', b'i', END_RECORD, BUFFER_END]).unwrap(),
        "hi"
    );
    assert_eq!(
        String::decode(vec![b'+', START_RECORD, END_RECORD]).unwrap(),
        ""
    );
    match decoding_cause(String::decode(vec![b'+', START_RECORD, 0xff, 0xfe, END_RECORD])) {
        DecodingErrors::InternalError(what) => assert_eq!(what, "invalid utf-8 sequence"),
        other => panic!("unexpected cause {:?}", other),
    }
    assert!(matches!(
        decoding_cause(String::decode(vec![b'+', START_RECORD, 0xc3, END_RECORD])),
        DecodingErrors::InternalError(_)
    ));
    assert!(matches!(
        decoding_cause(String::decode(vec![b'+', b'h', b'i'])),
        DecodingErrors::NotEnough(_, 1, 0)
    ));
    assert!(matches!(
        decoding_cause(String::decode(vec![
            b'+',
            START_RECORD,
            END_RECORD,
            START_RECORD,
            END_RECORD
        ])),
        DecodingErrors::TooMuch(_, 1, 2)
    ));
    let made = String::new(ValueOrBuffer::Value("x".to_string()));
    assert_eq!(made.first_byte, b'+');
    assert_eq!(made.first_char, '+');
}

#[test]
fn string_round_trips_beyond_ascii() {
    for text in ["", "a", "Grüße", "日本語", "🦀 crab", "tab\tand\nnewline"] {
        let buff = String::encode(text.to_string()).unwrap();
        assert_eq!(buff[0], b'+');
        assert_eq!(String::decode(buff).unwrap(), text);
    }
}

#[test]
fn string_with_balanced_records_round_trips() {
    let text = std::string::String::from_utf8(vec![b'a', START_RECORD, b'b', END_RECORD]).unwrap();
    let buff = String::encode(text.clone()).unwrap();
    assert_eq!(String::decode(buff).unwrap(), text);
}

#[test]
fn string_with_a_stray_delimiter_does_not_round_trip() {
    let closing = std::string::String::from_utf8(vec![b'a', END_RECORD, b'b']).unwrap();
    let buff = String::encode(closing.clone()).unwrap();
    assert_ne!(String::decode(buff).ok(), Some(closing));

    let separated = std::string::String::from_utf8(vec![b'a', VALUE_DELIMITER, b'b']).unwrap();
    let buff = String::encode(separated.clone()).unwrap();
    assert!(String::decode(buff).is_err());
}

#[test]
fn a_sign_that_is_left_out_counts_as_plus() {
    let with_sign = vec![b'(', b'+', START_RECORD, 4, 2, END_RECORD, BUFFER_END];
    let without_sign = vec![b'(', START_RECORD, 4, 2, END_RECORD, BUFFER_END];
    assert_eq!(
        BigInt::decode(with_sign).unwrap(),
        BigInt::decode(without_sign).unwrap()
    );
    let with_sign = vec![b':', b'+', START_RECORD, 4, 2, END_RECORD, BUFFER_END];
    let without_sign = vec![b':', START_RECORD, 4, 2, END_RECORD, BUFFER_END];
    assert_eq!(
        Integer::decode(with_sign).unwrap(),
        Integer::decode(without_sign).unwrap()
    );
    let with_sign = vec![b';', b'+', START_RECORD, 4, b'.', 2, END_RECORD, BUFFER_END];
    let without_sign = vec![b';', START_RECORD, 4, b'.', 2, END_RECORD, BUFFER_END];
    let read = Double::decode(without_sign).unwrap();
    assert!(!read.negative);
    assert_eq!(Double::decode(with_sign).unwrap(), read);
}

#[test]
fn decoding_the_same_buffer_twice_gives_the_same() {
    let buff = vec![b'(', b'-', START_RECORD, 4, 2, END_RECORD, BUFFER_END];
    assert_eq!(
        BigInt::decode(buff.clone()).unwrap(),
        BigInt::decode(buff).unwrap()
    );
    let bad = vec![b'(', b'-', START_RECORD, 40, END_RECORD, BUFFER_END];
    let first = format!("{:?}", BigInt::decode(bad.clone()));
    let second = format!("{:?}", BigInt::decode(bad));
    assert_eq!(first, second);
}
