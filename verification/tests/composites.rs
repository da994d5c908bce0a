use coproto::common::delimiters::{BUFFER_END, END_RECORD, START_RECORD, VALUE_DELIMITER};
use coproto::common::errors::{DecodingErrors, EncodingErrors, TypeError};
use coproto::common::{CoprotoType, ValueOrBuffer};
use coproto::types::{
    infer_buffer, Array, BigInt, Boolean, Command, Decimal, Double, Integer, NamedValue, Null,
    String, SupportedTypes, Table,
};

fn double(value: f64) -> SupportedTypes {
    SupportedTypes::Double(Decimal {
        negative: value < 0f64,
        text: value.abs().to_string(),
    })
}

fn decoding_cause<T>(result: Result<T, TypeError>) -> DecodingErrors {
    match result {
        Ok(_) => panic!("decoding was expected to fail"),
        Err(TypeError::Encoding(_)) => panic!("an encoding error came out of a decoder"),
        Err(TypeError::Decoding(error)) => error.cause,
    }
}

fn inner(mut encoded: Vec<u8>) -> Vec<u8> {
    assert_eq!(encoded.pop(), Some(BUFFER_END));
    encoded
}

fn composite(tag: u8, children: &[Vec<u8>]) -> Vec<u8> {
    let mut buff = vec![tag, START_RECORD];
    for child in children {
        buff.extend_from_slice(child);
        buff.push(VALUE_DELIMITER);
    }
    buff.push(END_RECORD);
    buff.push(BUFFER_END);
    buff
}

fn text(value: &str) -> Vec<u8> {
    inner(String::encode(value.to_string()).unwrap())
}

#[test]
fn test_filled_encoding_decoding() {
    let vec_to_test = vec![
        SupportedTypes::BigInt(123456789),
        SupportedTypes::Boolean(false),
        double(1.2345),
        SupportedTypes::Integer(123),
        SupportedTypes::Null(None),
        SupportedTypes::String("Hello, fellow rustacean!".to_string()),
    ];

    let filled_encoding = Array::new(ValueOrBuffer::Value(vec_to_test.clone()));

    let filled_buff = filled_encoding.buff.unwrap();
    let filled_decoding = Array::new(ValueOrBuffer::Buffer(filled_buff));

    assert_eq!(
        filled_decoding.value_of.unwrap(),
        filled_encoding.value_of.unwrap()
    );
}

#[test]
fn test_empty_encoding_decoding() {
    let empty_encoding = Array::new(ValueOrBuffer::Value(vec![]));
    let empty_buff = empty_encoding.buff.unwrap();
    let empty_decoding = Array::new(ValueOrBuffer::Buffer(empty_buff));

    assert_eq!(
        empty_decoding.value_of.unwrap(),
        empty_encoding.value_of.unwrap()
    );
}

#[test]
fn array_wrong_buffer() {
    let buff = vec![b'?', START_RECORD, 0, END_RECORD, BUFFER_END];

    let wrong = Array::new(ValueOrBuffer::Buffer(buff));

    let rejected = match wrong.value_of {
        Ok(_) => false,
        Err(e) => match e {
            TypeError::Encoding(_) => false,
            TypeError::Decoding(decoding_error) => {
                matches!(
                    decoding_error.cause,
                    DecodingErrors::FirstByteError(_, _, _)
                )
            }
        },
    };

    assert!(rejected);
}

#[test]
fn array_bytes() {
    assert_eq!(
        Array::encode(vec![]).unwrap(),
        vec![b'[', START_RECORD, END_RECORD, BUFFER_END]
    );
    assert_eq!(
        Array::encode(vec![SupportedTypes::Integer(-12), SupportedTypes::Null(None)]).unwrap(),
        vec![
            b'[',
            START_RECORD,
            b':',
            b'-',
            START_RECORD,
            1,
            2,
            END_RECORD,
            VALUE_DELIMITER,
            b'-',
            START_RECORD,
            END_RECORD,
            VALUE_DELIMITER,
            END_RECORD,
            BUFFER_END
        ]
    );
    let made = Array::new(ValueOrBuffer::Value(vec![]));
    assert_eq!(made.first_byte, b'[');
    assert_eq!(made.first_char, '[');
    assert_eq!(made.modifier_byte, None);
    assert_eq!(made.modifier_char, None);
}

#[test]
fn array_keeps_the_order() {
    let values = vec![
        SupportedTypes::Integer(3),
        SupportedTypes::Integer(1),
        SupportedTypes::Integer(2),
        SupportedTypes::Integer(1),
    ];
    let buff = Array::encode(values.clone()).unwrap();
    assert_eq!(Array::decode(buff).unwrap(), values);
}

#[test]
fn array_takes_missing_and_undelimited_fields() {
    let mut buff = vec![b'[', START_RECORD];
    buff.extend_from_slice(&inner(Boolean::encode(true).unwrap()));
    buff.push(VALUE_DELIMITER);
    buff.push(VALUE_DELIMITER);
    buff.extend_from_slice(&inner(Integer::encode(7).unwrap()));
    buff.push(END_RECORD);
    assert_eq!(
        Array::decode(buff).unwrap(),
        vec![SupportedTypes::Boolean(true), SupportedTypes::Integer(7)]
    );
    assert_eq!(Array::decode(vec![b'[']).unwrap(), vec![]);
}

#[test]
fn array_body_that_starts_with_no_tag_is_dropped() {
    let mut buff = vec![b'[', START_RECORD, VALUE_DELIMITER];
    buff.extend_from_slice(&inner(Boolean::encode(true).unwrap()));
    buff.push(VALUE_DELIMITER);
    buff.push(END_RECORD);
    assert_eq!(Array::decode(buff).unwrap(), vec![]);
}

#[test]
fn array_reports_the_failure_of_a_child_as_its_own() {
    let bad_child = vec![b'#', START_RECORD, 2, END_RECORD];
    let buff = composite(b'[', &[inner(Boolean::encode(true).unwrap()), bad_child]);
    match Array::decode(buff.clone()) {
        Err(TypeError::Decoding(error)) => {
            assert_eq!(error.from, buff);
            assert_eq!(error.to, "Array");
            assert!(matches!(error.cause, DecodingErrors::InvalidByte(2, 0, _)));
        }
        other => panic!("unexpected result {:?}", other),
    }
    let unknown = composite(b'[', &[vec![b'+', START_RECORD, END_RECORD], vec![b'[', START_RECORD, END_RECORD]]);
    match decoding_cause(Array::decode(unknown)) {
        DecodingErrors::UnknownFirstByte(byte, known) => {
            assert_eq!(byte, b'[');
            assert_eq!(known, vec![b'(', b'#', b';', b':', b'-', b'+']);
        }
        other => panic!("unexpected cause {:?}", other),
    }
    assert!(matches!(
        decoding_cause(Array::decode(vec![
            b'[',
            START_RECORD,
            END_RECORD,
            START_RECORD,
            END_RECORD
        ])),
        DecodingErrors::TooMuch(_, 1, 2)
    ));
}

#[test]
fn array_cannot_hold_what_cannot_be_encoded() {
    let values = vec![
        SupportedTypes::Integer(1),
        SupportedTypes::Null(Some(())),
        SupportedTypes::Double(Decimal {
            negative: false,
            text: "NaN".to_string(),
        }),
    ];
    match Array::encode(values) {
        Err(TypeError::Encoding(error)) => {
            assert_eq!(error.to, "Null");
            assert!(matches!(error.origin, EncodingErrors::InvalidValue(_)));
        }
        other => panic!("unexpected result {:?}", other),
    }
}

#[test]
fn command_test_encoding_decoding() {
    let encoding = Command::new(ValueOrBuffer::Value((
        "OK".to_string(),
        vec![
            "Be".to_string(),
            "happy".to_string(),
            ".".to_string(),
            "Its".to_string(),
            "all".to_string(),
            "ours".to_string(),
        ],
    )));

    let buff = encoding.buff.unwrap();

    let decoding = Command::new(ValueOrBuffer::Buffer(buff));

    assert_eq!(decoding.value_of.unwrap(), encoding.value_of.unwrap());
}

#[test]
fn command_wrong_buffer() {
    let buff = vec![b'?', START_RECORD, 0, END_RECORD, BUFFER_END];

    let wrong = Command::new(ValueOrBuffer::Buffer(buff));

    let rejected = match wrong.value_of {
        Ok(_) => false,
        Err(e) => match e {
            TypeError::Encoding(_) => false,
            TypeError::Decoding(decoding_error) => {
                matches!(
                    decoding_error.cause,
                    DecodingErrors::FirstByteError(_, _, _)
                )
            }
        },
    };

    assert!(rejected);
}

#[test]
fn command_bytes() {
    assert_eq!(
        Command::encode(("OK".to_string(), vec!["a".to_string()])).unwrap(),
        composite(b'$', &[text("OK"), text("a")])
    );
    assert_eq!(
        Command::encode(("OK".to_string(), vec![])).unwrap(),
        composite(b'$', &[text("OK")])
    );
    assert_eq!(
        Command::decode(composite(b'$', &[text("PING")])).unwrap(),
        ("PING".to_string(), vec![])
    );
    let made = Command::new(ValueOrBuffer::Value(("OK".to_string(), vec![])));
    assert_eq!(made.first_byte, b'$');
    assert_eq!(made.first_char, '$');
}

#[test]
fn command_errors() {
    assert!(matches!(
        decoding_cause(Command::decode(composite(b'$', &[]))),
        DecodingErrors::NotEnough(_, 1, 0)
    ));
    let nameless = composite(b'$', &[vec![], text("a")]);
    let length = nameless.len() as u32;
    match decoding_cause(Command::decode(nameless)) {
        DecodingErrors::NotEnough(name, expected, found) => {
            assert_eq!(name, "Bytes");
            assert_eq!(expected, 4);
            assert_eq!(found, length);
        }
        other => panic!("unexpected cause {:?}", other),
    }
    assert!(matches!(
        decoding_cause(Command::decode(vec![b'$', b'x'])),
        DecodingErrors::NotEnough(_, 4, 2)
    ));
    let with_number = composite(b'$', &[text("OK"), inner(Integer::encode(1).unwrap())]);
    match Command::decode(with_number.clone()) {
        Err(TypeError::Decoding(error)) => {
            assert_eq!(error.from, with_number);
            assert_eq!(error.to, "Command");
            match error.cause {
                DecodingErrors::InvalidTypeInCompositeType(found, expected) => {
                    assert_eq!(found, "Integer");
                    assert_eq!(expected, "String");
                }
                other => panic!("unexpected cause {:?}", other),
            }
        }
        other => panic!("unexpected result {:?}", other),
    }
    let name_is_number = composite(b'$', &[inner(Integer::encode(1).unwrap())]);
    assert!(matches!(
        decoding_cause(Command::decode(name_is_number)),
        DecodingErrors::FirstByteError(_, b'+', b':')
    ));
    assert!(matches!(
        decoding_cause(Command::decode(vec![
            b'$',
            START_RECORD,
            END_RECORD,
            START_RECORD,
            END_RECORD
        ])),
        DecodingErrors::TooMuch(_, 1, 2)
    ));
}

#[test]
fn named_value_test_encoding_decoding() {
    let types_to_test = [
        SupportedTypes::BigInt(123456789),
        SupportedTypes::Boolean(false),
        double(1.2345),
        SupportedTypes::Integer(123),
        SupportedTypes::Null(None),
        SupportedTypes::String("Hello, fellow rustacean!".to_string()),
    ];

    for tp in types_to_test.iter() {
        let encoding = NamedValue::new(ValueOrBuffer::Value((
            tp.get_name().to_string(),
            tp.clone(),
        )));

        let buff = encoding.buff.unwrap();
        let decoding = NamedValue::new(ValueOrBuffer::Buffer(buff));

        assert_eq!(decoding.value_of.unwrap(), encoding.value_of.unwrap());
    }
}

#[test]
fn named_value_wrong_buffer() {
    let buff = vec![b'?', START_RECORD, 0, END_RECORD, BUFFER_END];

    let wrong = NamedValue::new(ValueOrBuffer::Buffer(buff));

    let rejected = match wrong.value_of {
        Ok(_) => false,
        Err(e) => match e {
            TypeError::Encoding(_) => false,
            TypeError::Decoding(decoding_error) => {
                matches!(
                    decoding_error.cause,
                    DecodingErrors::FirstByteError(_, _, _)
                )
            }
        },
    };

    assert!(rejected);
}

#[test]
fn named_value_bytes_and_errors() {
    assert_eq!(
        NamedValue::encode(("n".to_string(), SupportedTypes::Boolean(true))).unwrap(),
        composite(b'@', &[text("n"), inner(Boolean::encode(true).unwrap())])
    );
    assert!(matches!(
        decoding_cause(NamedValue::decode(composite(b'@', &[]))),
        DecodingErrors::NotEnough(_, 2, 0)
    ));
    assert!(matches!(
        decoding_cause(NamedValue::decode(composite(b'@', &[text("n")]))),
        DecodingErrors::NotEnough(_, 2, 1)
    ));
    match decoding_cause(NamedValue::decode(composite(b'@', &[text("n"), vec![], text("m")]))) {
        DecodingErrors::NotEnough(name, expected, found) => {
            assert_eq!(name, "Values");
            assert_eq!(expected, 2);
            assert_eq!(found, 1);
        }
        other => panic!("unexpected cause {:?}", other),
    }
    assert!(matches!(
        decoding_cause(NamedValue::decode(composite(b'@', &[vec![], text("n")]))),
        DecodingErrors::NotEnough(_, 4, _)
    ));
    assert!(matches!(
        decoding_cause(NamedValue::decode(composite(
            b'@',
            &[inner(Integer::encode(1).unwrap()), text("n")]
        ))),
        DecodingErrors::FirstByteError(_, b'+', b':')
    ));
    assert!(matches!(
        decoding_cause(NamedValue::decode(vec![
            b'@',
            START_RECORD,
            END_RECORD,
            START_RECORD,
            END_RECORD
        ])),
        DecodingErrors::TooMuch(_, 1, 2)
    ));
    assert!(matches!(
        decoding_cause(NamedValue::decode(vec![b'@'])),
        DecodingErrors::NotEnough(_, 4, 1)
    ));
    assert!(matches!(
        NamedValue::encode(("n".to_string(), SupportedTypes::Null(Some(())))),
        Err(TypeError::Encoding(_))
    ));
    let made = NamedValue::new(ValueOrBuffer::Value((
        "n".to_string(),
        SupportedTypes::Null(None),
    )));
    assert_eq!(made.first_byte, b'@');
    assert_eq!(made.first_char, '@');
}

#[test]
fn encoding_decoding() {
    let original_table = (
        vec!["Teste1".to_string(), "Teste2".to_string()],
        vec![vec![
            SupportedTypes::Boolean(false),
            SupportedTypes::Integer(10),
        ]],
    );

    let encoded = Table::new(ValueOrBuffer::Value(original_table.clone()));

    println!("Encoded:\n{:?}", encoded);

    let buff = encoded.buff.unwrap();

    let decoded = Table::new(ValueOrBuffer::Buffer(buff.clone()));

    assert_eq!(original_table, decoded.value_of.unwrap());

    assert_eq!(buff.clone(), decoded.buff.unwrap());
}

#[test]
fn more_headers_than_records() {
    let table_to_encode = (
        vec!["Teste1".to_string(), "Teste1".to_string()],
        vec![vec![SupportedTypes::Boolean(false)]],
    );

    let err = match Table::encode(table_to_encode) {
        Ok(_) => false,
        Err(e) => match e {
            TypeError::Encoding(encoding_error) => {
                matches!(encoding_error.origin, EncodingErrors::TableMisfit(_, _))
            }
            TypeError::Decoding(_) => false,
        },
    };

    assert!(err);
}

#[test]
fn more_records_than_headers() {
    let table_to_encode = (
        vec!["Teste1".to_string()],
        vec![vec![
            SupportedTypes::Boolean(false),
            SupportedTypes::Boolean(false),
        ]],
    );

    let err = match Table::encode(table_to_encode) {
        Ok(_) => false,
        Err(e) => match e {
            TypeError::Encoding(encoding_error) => {
                matches!(encoding_error.origin, EncodingErrors::TableMisfit(_, _))
            }
            TypeError::Decoding(_) => false,
        },
    };

    assert!(err);
}

#[test]
fn table_bytes() {
    let mut expected = vec![b'{', START_RECORD];
    for part in [
        text("a"),
        text("b"),
        inner(Null::encode(None).unwrap()),
        inner(Boolean::encode(true).unwrap()),
        inner(Integer::encode(1).unwrap()),
    ] {
        expected.extend_from_slice(&part);
        expected.push(VALUE_DELIMITER);
    }
    expected.push(VALUE_DELIMITER);
    expected.push(END_RECORD);
    expected.push(BUFFER_END);
    assert_eq!(
        Table::encode((
            vec!["a".to_string(), "b".to_string()],
            vec![vec![SupportedTypes::Boolean(true), SupportedTypes::Integer(1)]]
        ))
        .unwrap(),
        expected
    );
    let made = Table::new(ValueOrBuffer::Value((vec!["a".to_string()], vec![])));
    assert_eq!(made.first_byte, b'{');
    assert_eq!(made.first_char, '{');
}

#[test]
fn table_round_trips_with_many_rows() {
    let table = (
        vec!["id".to_string(), "name".to_string(), "score".to_string()],
        vec![
            vec![
                SupportedTypes::Integer(1),
                SupportedTypes::String("ana".to_string()),
                double(9.5),
            ],
            vec![
                SupportedTypes::Integer(2),
                SupportedTypes::Null(None),
                SupportedTypes::BigInt(-7),
            ],
            vec![
                SupportedTypes::Null(None),
                SupportedTypes::String("".to_string()),
                SupportedTypes::Boolean(true),
            ],
        ],
    );
    let buff = Table::encode(table.clone()).unwrap();
    assert_eq!(buff[0], b'{');
    assert_eq!(Table::decode(buff).unwrap(), table);

    let no_rows = (vec!["only".to_string()], vec![]);
    let buff = Table::encode(no_rows.clone()).unwrap();
    assert_eq!(Table::decode(buff).unwrap(), no_rows);
}

#[test]
fn table_encode_errors() {
    match Table::encode((vec![], vec![])) {
        Err(TypeError::Encoding(error)) => {
            assert_eq!(error.to, "Table");
            match error.origin {
                EncodingErrors::InvalidValue(reason) => {
                    assert_eq!(reason, "headers cannot be empty")
                }
                other => panic!("unexpected origin {:?}", other),
            }
        }
        other => panic!("unexpected result {:?}", other),
    }
    match Table::encode((
        vec!["Teste1".to_string()],
        vec![
            vec![SupportedTypes::Boolean(false)],
            vec![SupportedTypes::Boolean(false), SupportedTypes::Integer(10)],
        ],
    )) {
        Err(TypeError::Encoding(error)) => {
            assert!(matches!(error.origin, EncodingErrors::TableMisfit(1, 2)))
        }
        other => panic!("unexpected result {:?}", other),
    }
    assert!(matches!(
        Table::encode((
            vec!["a".to_string()],
            vec![vec![SupportedTypes::Null(Some(()))]]
        )),
        Err(TypeError::Encoding(_))
    ));
}

#[test]
fn table_without_sentinel_has_headers_only() {
    let buff = composite(b'{', &[text("a"), text("b")]);
    assert_eq!(
        Table::decode(buff).unwrap(),
        (vec!["a".to_string(), "b".to_string()], vec![])
    );
    assert_eq!(Table::decode(vec![b'{']).unwrap(), (vec![], vec![]));
}

#[test]
fn table_decode_errors() {
    let null = inner(Null::encode(None).unwrap());
    let one = inner(Integer::encode(1).unwrap());
    let partial = composite(
        b'{',
        &[text("a"), text("b"), null.clone(), one.clone(), one.clone(), one.clone()],
    );
    assert!(matches!(
        decoding_cause(Table::decode(partial)),
        DecodingErrors::CantFitValues(2, 1)
    ));
    let no_headers = composite(b'{', &[null.clone(), one.clone()]);
    assert!(matches!(
        decoding_cause(Table::decode(no_headers)),
        DecodingErrors::CantFitValues(0, 1)
    ));
    let number_as_header = composite(b'{', &[text("a"), one.clone(), null.clone()]);
    match decoding_cause(Table::decode(number_as_header)) {
        DecodingErrors::InvalidTypeInCompositeType(found, expected) => {
            assert_eq!(found, "Integer");
            assert_eq!(expected, "String or Null");
        }
        other => panic!("unexpected cause {:?}", other),
    }
    let bad_value = composite(b'{', &[text("a"), null, vec![b'?', START_RECORD, END_RECORD]]);
    assert!(matches!(
        decoding_cause(Table::decode(bad_value)),
        DecodingErrors::UnknownFirstByte(b'?', _)
    ));
    assert!(matches!(
        decoding_cause(Table::decode(vec![b'?', START_RECORD, END_RECORD])),
        DecodingErrors::FirstByteError(_, b'{', b'?')
    ));
    assert!(matches!(
        decoding_cause(Table::decode(vec![
            b'{',
            START_RECORD,
            END_RECORD,
            START_RECORD,
            END_RECORD
        ])),
        DecodingErrors::TooMuch(_, 1, 2)
    ));
}

#[test]
fn infer_buffer_decodes_by_the_first_byte() {
    let values = [
        SupportedTypes::BigInt(-123456789),
        SupportedTypes::Boolean(true),
        double(-0.125),
        SupportedTypes::Integer(77),
        SupportedTypes::Null(None),
        SupportedTypes::String("text".to_string()),
    ];
    for value in values.iter() {
        let buff = value.encode().unwrap();
        assert_eq!(&infer_buffer(buff).unwrap(), value);
    }
    assert_eq!(
        infer_buffer(BigInt::encode(5).unwrap()).unwrap(),
        SupportedTypes::BigInt(5)
    );
    assert_eq!(
        infer_buffer(Double::encode(Decimal { negative: true, text: "2.5".to_string() }).unwrap())
            .unwrap()
            .get_name(),
        "Double"
    );
}

#[test]
fn infer_buffer_errors() {
    match infer_buffer(vec![]) {
        Err(TypeError::Decoding(error)) => {
            assert_eq!(error.to, "Infer");
            assert!(matches!(error.cause, DecodingErrors::CouldNotFind(0, _)));
        }
        other => panic!("unexpected result {:?}", other),
    }
    for tag in [b'?', b'[', b'$', b'@', b'{', START_RECORD] {
        match infer_buffer(vec![tag, START_RECORD, END_RECORD]) {
            Err(TypeError::Decoding(error)) => {
                assert_eq!(error.to, "Infer");
                match error.cause {
                    DecodingErrors::UnknownFirstByte(byte, known) => {
                        assert_eq!(byte, tag);
                        assert_eq!(known, vec![b'(', b'#', b';', b':', b'-', b'+']);
                    }
                    other => panic!("unexpected cause {:?}", other),
                }
            }
            other => panic!("unexpected result {:?}", other),
        }
    }
    match infer_buffer(vec![b'#', START_RECORD, 2, END_RECORD]) {
        Err(TypeError::Decoding(error)) => {
            assert_eq!(error.to, "Boolean");
            assert!(matches!(error.cause, DecodingErrors::InvalidByte(2, 0, _)));
        }
        other => panic!("unexpected result {:?}", other),
    }
}

#[test]
fn first_byte_of_each_kind_is_its_tag() {
    assert_eq!(BigInt::FIRST_BYTE, b'(');
    assert_eq!(Boolean::FIRST_BYTE, b'#');
    assert_eq!(Double::FIRST_BYTE, b';');
    assert_eq!(Integer::FIRST_BYTE, b':');
    assert_eq!(Null::FIRST_BYTE, b'-');
    assert_eq!(String::FIRST_BYTE, b'+');
    assert_eq!(Array::FIRST_BYTE, b'[');
    assert_eq!(Command::FIRST_BYTE, b'$');
    assert_eq!(NamedValue::FIRST_BYTE, b'@');
    assert_eq!(Table::FIRST_BYTE, b'{');
    assert_eq!(BigInt::FIRST_BYTE, coproto::common::tags::BIG_INT);
    assert_eq!(Table::FIRST_BYTE, coproto::common::tags::TABLE);
}

#[test]
fn get_name_names_the_kind() {
    assert_eq!(SupportedTypes::BigInt(1).get_name(), "BigInt");
    assert_eq!(SupportedTypes::Boolean(true).get_name(), "Boolean");
    assert_eq!(double(1.5).get_name(), "Double");
    assert_eq!(SupportedTypes::Integer(1).get_name(), "Integer");
    assert_eq!(SupportedTypes::Null(None).get_name(), "Null");
    assert_eq!(SupportedTypes::String("s".to_string()).get_name(), "String");
}

#[test]
fn first_byte_replaced_is_rejected_by_every_kind() {
    let mut buffers = vec![
        BigInt::encode(1000).unwrap(),
        BigInt::encode(-1000).unwrap(),
        Boolean::encode(true).unwrap(),
        Null::encode(None).unwrap(),
        String::encode("hi".to_string()).unwrap(),
    ];
    for buff in buffers.iter_mut() {
        buff[0] = b'?';
    }
    assert!(matches!(
        decoding_cause(BigInt::decode(buffers[0].clone())),
        DecodingErrors::FirstByteError(_, b'(', b'?')
    ));
    assert!(matches!(
        decoding_cause(BigInt::decode(buffers[1].clone())),
        DecodingErrors::FirstByteError(_, b'(', b'?')
    ));
    assert!(matches!(
        decoding_cause(Boolean::decode(buffers[2].clone())),
        DecodingErrors::FirstByteError(_, b'#', b'?')
    ));
    assert!(matches!(
        decoding_cause(Null::decode(buffers[3].clone())),
        DecodingErrors::FirstByteError(_, b'-', b'?')
    ));
    assert!(matches!(
        decoding_cause(String::decode(buffers[4].clone())),
        DecodingErrors::FirstByteError(_, b'+', b'?')
    ));

    let mut array = Array::encode(vec![SupportedTypes::Integer(123)]).unwrap();
    array[0] = b'?';
    assert!(matches!(
        decoding_cause(Array::decode(array)),
        DecodingErrors::FirstByteError(_, b'[', b'?')
    ));
    let mut command = Command::encode(("OK".to_string(), vec!["Be".to_string()])).unwrap();
    command[0] = b'?';
    assert!(matches!(
        decoding_cause(Command::decode(command)),
        DecodingErrors::FirstByteError(_, b'$', b'?')
    ));
    let mut named = NamedValue::encode(("n".to_string(), SupportedTypes::Integer(1))).unwrap();
    named[0] = b'?';
    assert!(matches!(
        decoding_cause(NamedValue::decode(named)),
        DecodingErrors::FirstByteError(_, b'@', b'?')
    ));
    let mut table = Table::encode((
        vec!["Teste1".to_string(), "Teste2".to_string()],
        vec![vec![SupportedTypes::Boolean(false), SupportedTypes::Integer(10)]],
    ))
    .unwrap();
    table[0] = b'?';
    assert!(matches!(
        decoding_cause(Table::decode(table)),
        DecodingErrors::FirstByteError(_, b'{', b'?')
    ));
    let mut number = Double::encode(Decimal { negative: false, text: "123.456".to_string() }).unwrap();
    number[0] = b'?';
    assert!(matches!(
        decoding_cause(Double::decode(number)),
        DecodingErrors::FirstByteError(_, b';', b'?')
    ));
}

#[test]
fn composites_round_trip_text_with_nested_records() {
    let nested = std::string::String::from_utf8(vec![
        b'a',
        START_RECORD,
        VALUE_DELIMITER,
        END_RECORD,
    ])
    .unwrap();
    let plain_in_composite = Array::encode(vec![SupportedTypes::String("a b".to_string())]).unwrap();
    assert_eq!(
        Array::decode(plain_in_composite).unwrap(),
        vec![SupportedTypes::String("a b".to_string())]
    );
    let buff = Array::encode(vec![SupportedTypes::String(nested.clone())]).unwrap();
    assert_ne!(
        Array::decode(buff).ok(),
        Some(vec![SupportedTypes::String(nested)])
    );
}
