use mtools::mcut::{Column, Config, CutError};

fn not_found(name: &str) -> CutError {
    CutError::FieldNotFound(name.as_bytes().to_vec())
}

#[test]
fn test_col_to_idx_1() {
    let header = vec!["col0", "col1", "col2"];
    let col_name_list = vec!["", "col1", "2"];
    let expected = [0, 1, 2];
    for (i, col_name) in col_name_list.iter().enumerate() {
        assert_eq!(Ok(expected[i]), Config::col_to_idx(col_name, &header, true));
    }
    let expected = [3, 2, 3];
    for (i, col_name) in col_name_list.iter().enumerate() {
        assert_eq!(Ok(expected[i]), Config::col_to_idx(col_name, &header, false));
    }
}

#[test]
fn test_col_to_idx_2() {
    let header = vec!["col0", "col1", "col2"];
    let col_name = "col3";
    assert_eq!(Err(not_found("col3")), Config::col_to_idx(col_name, &header, true));
}

#[test]
fn test_col_to_idx_3() {
    let header = vec!["col0", "col1", "col2"];
    let col_name = "100";
    assert_eq!(Err(not_found("100")), Config::col_to_idx(col_name, &header, true));
}

#[test]
fn test_col_to_idx_4() {
    let header = vec!["col0", "col1", "col2"];
    let col_name = "-100";
    assert_eq!(Err(not_found("-100")), Config::col_to_idx(col_name, &header, true));
}

#[test]
fn test_number_to_idx_1() {
    let header = vec!["col0", "col1", "col2"];
    let col_name_list = vec!["", "2"];
    let expected = [0, 2];
    for (i, col_name) in col_name_list.iter().enumerate() {
        assert_eq!(Ok(expected[i]), Config::number_to_idx(col_name, &header, true));
    }
    let expected = [3, 3];
    for (i, col_name) in col_name_list.iter().enumerate() {
        assert_eq!(Ok(expected[i]), Config::number_to_idx(col_name, &header, false));
    }
}

#[test]
fn test_number_to_idx_2() {
    let header = vec!["col0", "col1", "col2"];
    let col_name = "100";
    assert_eq!(Err(not_found("100")), Config::number_to_idx(col_name, &header, true));
}

#[test]
fn test_number_to_idx_3() {
    let header = vec!["col0", "col1", "col2"];
    let col_name = "col0";
    assert_eq!(Err(not_found("col0")), Config::number_to_idx(col_name, &header, true));
}

#[test]
fn test_number_to_idx_4() {
    let header = vec!["col0", "col1", "col2"];
    let col_name = "-100";
    assert_eq!(Err(not_found("-100")), Config::number_to_idx(col_name, &header, true));
}

#[test]
fn test_parse_field_1() {
    let fields = vec![
        ""     , "col0"     , "col0..col3"     , "col0.."     , "..col3"     , "..",
        ":def1", "col0:def1", "col0..col3:def1", "col0..:def1", "..col3:def1", "..:def1",
    ];
    let expected: Vec<(Option<&str>, Option<&str>, Option<Vec<u8>>)> = vec![
        (Some("")    , None        , None),
        (Some("col0"), None        , None),
        (Some("col0"), Some("col3"), None),
        (Some("col0"), Some("")    , None),
        (Some("")    , Some("col3"), None),
        (Some("")    , Some("")    , None),
        (Some("")    , None        , Some(b"def1".to_vec())),
        (Some("col0"), None        , Some(b"def1".to_vec())),
        (Some("col0"), Some("col3"), Some(b"def1".to_vec())),
        (Some("col0"), Some("")    , Some(b"def1".to_vec())),
        (Some("")    , Some("col3"), Some(b"def1".to_vec())),
        (Some("")    , Some("")    , Some(b"def1".to_vec())),
    ];
    for (i, field) in fields.iter().enumerate() {
        assert_eq!(expected[i], Config::parse_field(field));
    }
}

#[test]
fn test_parse_field_as_number_1() {
    let field = String::from("2,4,6,2:,3:foo,:0,5");
    let header = String::from("itemid,title,url,desc,keyword1,keyword2,narrow1,narrow2,data1,data2");
    let cfg = Config::parse_field_as_number(header, b',', field).unwrap();
    let expected: Vec<Column> = vec![
        Column::new(2, None                 , Vec::new()),
        Column::new(4, None                 , Vec::new()),
        Column::new(6, None                 , Vec::new()),
        Column::new(0, Some(b"".to_vec())   , Vec::new()),
        Column::new(0, Some(b"foo".to_vec()), Vec::new()),
        Column::new(0, Some(b"0".to_vec())  , Vec::new()),
        Column::new(5, None                 , Vec::new()),
    ];
    assert_eq!(expected, cfg.columns);
}

#[test]
fn test_parse_field_as_number_2() {
    let field = String::from("1..2,..3,3..,..");
    let header = String::from("col0,col1,col2,col3,col4,col5");
    let cfg = Config::parse_field_as_number(header, b',', field).unwrap();
    let expected: Vec<Column> = vec![
        Column::new(1, None , Vec::new()),
        Column::new(2, None , Vec::new()),
        Column::new(0, None , Vec::new()),
        Column::new(1, None , Vec::new()),
        Column::new(2, None , Vec::new()),
        Column::new(3, None , Vec::new()),
        Column::new(3, None , Vec::new()),
        Column::new(4, None , Vec::new()),
        Column::new(5, None , Vec::new()),
        Column::new(0, None , Vec::new()),
        Column::new(1, None , Vec::new()),
        Column::new(2, None , Vec::new()),
        Column::new(3, None , Vec::new()),
        Column::new(4, None , Vec::new()),
        Column::new(5, None , Vec::new()),
    ];
    assert_eq!(expected, cfg.columns);
}

#[test]
fn test_parse_field_as_number_3() {
    let field = String::from("1..2:def1,..3:def2,3..:def3,..:def4");
    let header = String::from("col0,col1,col2,col3,col4,col5");
    let cfg = Config::parse_field_as_number(header, b',', field).unwrap();
    let expected: Vec<Column> = vec![
        Column::new(0, Some(b"def1".to_vec()) , Vec::new()),
        Column::new(0, Some(b"def1".to_vec()) , Vec::new()),
        Column::new(0, Some(b"def2".to_vec()) , Vec::new()),
        Column::new(0, Some(b"def2".to_vec()) , Vec::new()),
        Column::new(0, Some(b"def2".to_vec()) , Vec::new()),
        Column::new(0, Some(b"def2".to_vec()) , Vec::new()),
        Column::new(0, Some(b"def3".to_vec()) , Vec::new()),
        Column::new(0, Some(b"def3".to_vec()) , Vec::new()),
        Column::new(0, Some(b"def3".to_vec()) , Vec::new()),
        Column::new(0, Some(b"def4".to_vec()) , Vec::new()),
        Column::new(0, Some(b"def4".to_vec()) , Vec::new()),
        Column::new(0, Some(b"def4".to_vec()) , Vec::new()),
        Column::new(0, Some(b"def4".to_vec()) , Vec::new()),
        Column::new(0, Some(b"def4".to_vec()) , Vec::new()),
        Column::new(0, Some(b"def4".to_vec()) , Vec::new()),
    ];
    assert_eq!(expected, cfg.columns);
}

#[test]
fn test_parse_field_as_number_4() {
    let field = String::from("2,4,6,2:,100,3:foo,:0,5");
    let header = String::from("itemid,title,url,desc,keyword1,keyword2,narrow1,narrow2,data1,data2");
    let r = Config::parse_field_as_number(header, b',', field);
    assert_eq!(Some(not_found("100")), r.err());
}

#[test]
fn test_parse_field_as_number_5() {
    let field = String::from("2,4,6,2:,3:foo,:0,5,title");
    let header = String::from("itemid,title,url,desc,keyword1,keyword2,narrow1,narrow2,data1,data2");
    let r = Config::parse_field_as_number(header, b',', field);
    assert_eq!(Some(not_found("title")), r.err());
}

#[test]
fn test_parse_field_as_number_6() {
    let field = String::from("-1..");
    let header = String::from("col0,col1,col2");
    let r = Config::parse_field_as_number(header, b',', field);
    assert_eq!(Some(not_found("-1")), r.err());
}

#[test]
fn test_parse_field_as_number_7() {
    let field = String::from("..50");
    let header = String::from("col0,col1,col2");
    let r = Config::parse_field_as_number(header, b',', field);
    assert_eq!(Some(not_found("50")), r.err());
}

#[test]
fn test_parse_field_as_number_8() {
    let field = String::from("title..50");
    let header = String::from("col0,col1,col2");
    let r = Config::parse_field_as_number(header, b',', field);
    assert_eq!(Some(not_found("title")), r.err());
}

#[test]
fn test_parse_field_as_name_1() {
    let field = String::from("title,field:word,src:0,kana:,title,narrow1,narrow2");
    let header = String::from("itemid,title,url,desc,keyword1,keyword2,narrow1,narrow2,data1,data2");
    let cfg = Config::parse_field_as_name(header, b',', field).unwrap();
    let expected: Vec<Column> = vec![
        Column::new(1 , None                  , b"title".to_vec()),
        Column::new(0 , Some(b"word".to_vec()), b"field".to_vec()),
        Column::new(0 , Some(b"0".to_vec())   , b"src".to_vec()),
        Column::new(0 , Some(b"".to_vec())    , b"kana".to_vec()),
        Column::new(1 , None                  , b"title".to_vec()),
        Column::new(6 , None                  , b"narrow1".to_vec()),
        Column::new(7 , None                  , b"narrow2".to_vec()),
    ];
    assert_eq!(expected, cfg.columns);
}

#[test]
fn test_parse_field_as_name_2() {
    let field = String::from("1..2,..3,3..,..,col1..col2,..col3,col3..");
    let header = String::from("col0,col1,col2,col3,col4,col5");
    let cfg = Config::parse_field_as_name(header, b',', field).unwrap();
    let expected: Vec<Column> = vec![
        Column::new(1, None , b"col1".to_vec()),
        Column::new(2, None , b"col2".to_vec()),
        Column::new(0, None , b"col0".to_vec()),
        Column::new(1, None , b"col1".to_vec()),
        Column::new(2, None , b"col2".to_vec()),
        Column::new(3, None , b"col3".to_vec()),
        Column::new(3, None , b"col3".to_vec()),
        Column::new(4, None , b"col4".to_vec()),
        Column::new(5, None , b"col5".to_vec()),
        Column::new(0, None , b"col0".to_vec()),
        Column::new(1, None , b"col1".to_vec()),
        Column::new(2, None , b"col2".to_vec()),
        Column::new(3, None , b"col3".to_vec()),
        Column::new(4, None , b"col4".to_vec()),
        Column::new(5, None , b"col5".to_vec()),
        Column::new(1, None , b"col1".to_vec()),
        Column::new(2, None , b"col2".to_vec()),
        Column::new(0, None , b"col0".to_vec()),
        Column::new(1, None , b"col1".to_vec()),
        Column::new(2, None , b"col2".to_vec()),
        Column::new(3, None , b"col3".to_vec()),
        Column::new(3, None , b"col3".to_vec()),
        Column::new(4, None , b"col4".to_vec()),
        Column::new(5, None , b"col5".to_vec()),
    ];
    assert_eq!(expected, cfg.columns);
}

#[test]
fn test_parse_field_as_name_3() {
    let field = String::from("1..2:def1,..3:def2,3..:def3,..:def4,col1..col2:def5,..col3:def6,col3..:def7");
    let header = String::from("col0,col1,col2,col3,col4,col5");
    let cfg = Config::parse_field_as_name(header, b',', field).unwrap();
    let expected: Vec<Column> = vec![
        Column::new(0, Some(b"def1".to_vec()) , b"col1".to_vec()),
        Column::new(0, Some(b"def1".to_vec()) , b"col2".to_vec()),
        Column::new(0, Some(b"def2".to_vec()) , b"col0".to_vec()),
        Column::new(0, Some(b"def2".to_vec()) , b"col1".to_vec()),
        Column::new(0, Some(b"def2".to_vec()) , b"col2".to_vec()),
        Column::new(0, Some(b"def2".to_vec()) , b"col3".to_vec()),
        Column::new(0, Some(b"def3".to_vec()) , b"col3".to_vec()),
        Column::new(0, Some(b"def3".to_vec()) , b"col4".to_vec()),
        Column::new(0, Some(b"def3".to_vec()) , b"col5".to_vec()),
        Column::new(0, Some(b"def4".to_vec()) , b"col0".to_vec()),
        Column::new(0, Some(b"def4".to_vec()) , b"col1".to_vec()),
        Column::new(0, Some(b"def4".to_vec()) , b"col2".to_vec()),
        Column::new(0, Some(b"def4".to_vec()) , b"col3".to_vec()),
        Column::new(0, Some(b"def4".to_vec()) , b"col4".to_vec()),
        Column::new(0, Some(b"def4".to_vec()) , b"col5".to_vec()),
        Column::new(0, Some(b"def5".to_vec()) , b"col1".to_vec()),
        Column::new(0, Some(b"def5".to_vec()) , b"col2".to_vec()),
        Column::new(0, Some(b"def6".to_vec()) , b"col0".to_vec()),
        Column::new(0, Some(b"def6".to_vec()) , b"col1".to_vec()),
        Column::new(0, Some(b"def6".to_vec()) , b"col2".to_vec()),
        Column::new(0, Some(b"def6".to_vec()) , b"col3".to_vec()),
        Column::new(0, Some(b"def7".to_vec()) , b"col3".to_vec()),
        Column::new(0, Some(b"def7".to_vec()) , b"col4".to_vec()),
        Column::new(0, Some(b"def7".to_vec()) , b"col5".to_vec()),
    ];
    assert_eq!(expected, cfg.columns);
}

#[test]
fn test_parse_field_as_name_4() {
    let field = String::from("title,field:word,src:0,kana:,title,narrow1,not_exists,narrow2");
    let header = String::from("itemid,title,url,desc,keyword1,keyword2,narrow1,narrow2,data1,data2");
    let r = Config::parse_field_as_name(header, b',', field);
    assert_eq!(Some(not_found("not_exists")), r.err());
}

#[test]
fn test_parse_field_as_name_5() {
    let field = String::from("-1..");
    let header = String::from("col0,col1,col2");
    let r = Config::parse_field_as_name(header, b',', field);
    assert_eq!(Some(not_found("-1")), r.err());
}

#[test]
fn test_parse_field_as_name_7() {
    let field = String::from("..50");
    let header = String::from("col0,col1,col2");
    let r = Config::parse_field_as_name(header, b',', field);
    assert_eq!(Some(not_found("50")), r.err());
}

#[test]
fn test_parse_field_as_name_6() {
    let field = String::from("title..50");
    let header = String::from("col0,col1,col2");
    let r = Config::parse_field_as_name(header, b',', field);
    assert_eq!(Some(not_found("title")), r.err());
}
