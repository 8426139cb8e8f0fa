use apache_avro::types::Value;
use apache_avro::{from_avro_datum, Schema};
use arroyo_operator::formats::{split_registry_header, AvroFormat};

#[test]
fn test_avro_deserialization() {
        let schema = r#"
        {
  "connect.name": "pizza_orders.pizza_orders",
  "fields": [
    {
      "name": "store_id",
      "type": "int"
    },
    {
      "name": "store_order_id",
      "type": "int"
    },
    {
      "name": "coupon_code",
      "type": "int"
    },
    {
      "name": "date",
      "type": {
        "connect.name": "org.apache.kafka.connect.data.Date",
        "connect.version": 1,
        "logicalType": "date",
        "type": "int"
      }
    },
    {
      "name": "status",
      "type": "string"
    },
    {
      "name": "order_lines",
      "type": {
        "items": {
          "connect.name": "pizza_orders.order_line",
          "fields": [
            {
              "name": "product_id",
              "type": "int"
            },
            {
              "name": "category",
              "type": "string"
            },
            {
              "name": "quantity",
              "type": "int"
            },
            {
              "name": "unit_price",
              "type": "double"
            },
            {
              "name": "net_price",
              "type": "double"
            }
          ],
          "name": "order_line",
          "type": "record"
        },
        "type": "array"
      }
    }
  ],
  "name": "pizza_orders",
  "namespace": "pizza_orders",
  "type": "record"
}"#;

        let message = [0u8, 0, 0, 0, 1, 8, 200, 223, 1, 144, 31, 186, 159, 2, 16, 97, 99, 99,
            101, 112, 116, 101, 100, 4, 156, 1, 10, 112, 105, 122, 122, 97, 4, 102, 102, 102, 102, 102,
            230, 38, 64, 102, 102, 102, 102, 102, 230, 54, 64, 84, 14, 100, 101, 115, 115, 101, 114, 116,
            2, 113, 61, 10, 215, 163, 112, 26, 64, 113, 61, 10, 215, 163, 112, 26, 64, 0, 10];

    let format = AvroFormat { confluent_schema_registry: true, embedded_schema: false };
    let (id, offset) = split_registry_header(&format, &message[..]).unwrap();
    assert_eq!(id, 1);
    assert_eq!(offset, 5);
    let schema = Schema::parse_str(schema).unwrap();
    let mut body = &message[offset..];
    let value = from_avro_datum(&schema, &mut body, None).unwrap();
    println!("{:?}", value);
    let Value::Record(fields) = value else { panic!("expected a record") };
    assert_eq!(fields.len(), 6);
    assert_eq!(fields[0], ("store_id".to_string(), Value::Int(4)));
    assert_eq!(fields[1], ("store_order_id".to_string(), Value::Int(14308)));
    assert_eq!(fields[2], ("coupon_code".to_string(), Value::Int(1992)));
    assert_eq!(fields[4], ("status".to_string(), Value::String("accepted".to_string())));
}
