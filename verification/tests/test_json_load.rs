use dade::{json_load, JsonValue};

#[test]
fn null() {
    let ret = json_load("null");
    assert!(if let Ok(JsonValue::Null) = ret {
        true
    } else {
        false
    });
}

#[test]
fn bool() {
    let ret = json_load("true");
    assert!(if let Ok(JsonValue::Bool(val)) = ret {
        val == true
    } else {
        false
    });

    let ret = json_load("false");
    assert!(if let Ok(JsonValue::Bool(val)) = ret {
        val == false
    } else {
        false
    });
}

#[test]
fn string() {
    let ret = json_load("\"\"");
    assert!(if let Ok(JsonValue::String(val)) = ret {
        val == ""
    } else {
        false
    });

    let ret = json_load("\"abc\"");
    assert!(if let Ok(JsonValue::String(val)) = ret {
        val == "abc"
    } else {
        false
    });
}

#[test]
fn integer() {
    let ret = json_load("1");
    assert!(if let Ok(JsonValue::Number(num)) = ret {
        let val: usize = num.parse().unwrap();
        val == 1
    } else {
        false
    });

    let ret = json_load("0");
    assert!(if let Ok(JsonValue::Number(num)) = ret {
        let val: usize = num.parse().unwrap();
        val == 0
    } else {
        false
    });

    let ret = json_load("-1");
    assert!(if let Ok(JsonValue::Number(num)) = ret {
        let val: isize = num.parse().unwrap();
        val == -1
    } else {
        false
    });
}

#[test]
fn float() {
    let ret = json_load("1.25");
    assert!(if let Ok(JsonValue::Number(num)) = ret {
        let val: f32 = num.parse().unwrap();
        val == 1.25
    } else {
        false
    });

    let ret = json_load("0.0");
    assert!(if let Ok(JsonValue::Number(num)) = ret {
        let val: f32 = num.parse().unwrap();
        val == 0.0
    } else {
        false
    });

    let ret = json_load("-0.2");
    assert!(if let Ok(JsonValue::Number(num)) = ret {
        let val: f32 = num.parse().unwrap();
        val == -0.2
    } else {
        false
    });
}

#[test]
fn array() {
    let ret = json_load("[]");
    assert!(if let Ok(JsonValue::Array(arr)) = ret {
        arr.is_empty()
    } else {
        false
    });

    let ret = json_load("[\"abc\"]");
    assert!(if let Ok(JsonValue::Array(arr)) = ret {
        let mut it = arr.iter();
        assert!(if let Some(JsonValue::String(val)) = it.next() {
            val == "abc"
        } else {
            false
        });
        it.next().is_none()
    } else {
        false
    });

    let ret = json_load("[1, 2]");
    assert!(if let Ok(JsonValue::Array(arr)) = ret {
        let mut it = arr.iter();
        assert!(if let Some(JsonValue::Number(num)) = it.next() {
            let val: isize = num.parse().unwrap();
            val == 1
        } else {
            false
        });
        assert!(if let Some(JsonValue::Number(num)) = it.next() {
            let val: isize = num.parse().unwrap();
            val == 2
        } else {
            false
        });
        it.next().is_none()
    } else {
        false
    });
}

#[test]
fn object() {
    let ret = json_load("{}");
    assert!(if let Ok(JsonValue::Object(dict)) = ret {
        dict.is_empty()
    } else {
        false
    });

    let ret = json_load("{\"abc\": 1}");
    assert!(if let Ok(JsonValue::Object(dict)) = ret {
        assert!(if let Some(JsonValue::Number(num)) = dict.get("abc") {
            let val: isize = num.parse().unwrap();
            val == 1
        } else {
            false
        });
        dict.len() == 1
    } else {
        false
    });

    let ret = json_load("{\"abc\": 1, \"foo\": \"bar\"}");
    assert!(if let Ok(JsonValue::Object(dict)) = ret {
        assert!(if let Some(JsonValue::Number(num)) = dict.get("abc") {
            let val: isize = num.parse().unwrap();
            val == 1
        } else {
            false
        });
        assert!(if let Some(JsonValue::String(val)) = dict.get("foo") {
            val == "bar"
        } else {
            false
        });
        dict.len() == 2
    } else {
        false
    });
}
