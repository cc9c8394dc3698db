use nufmt::{format_nu, Indentation};

#[test]
fn ignore_comments() {
    let nu = "# this is a comment";
    let expected = "# this is a comment";
    assert_eq!(expected, format_nu(nu, Indentation::Default));
}

#[test]
fn echoes_primitive() {
    let nu = "1.35";
    assert_eq!(nu, format_nu(nu, Indentation::Default));
}

#[test]
fn ignore_whitespace_in_string() {
    let nu = "\" hallo \"";
    assert_eq!(nu, format_nu(nu, Indentation::Default));
}

#[test]
fn remove_leading_whitespace() {
    let nu = "   0";
    let expected = "0";
    assert_eq!(expected, format_nu(nu, Indentation::Default));
}

#[test]
fn handle_escaped_strings() {
    let nu = "  \" hallo \\\" \" ";
    let expected = "\" hallo \\\" \"";
    assert_eq!(expected, format_nu(nu, Indentation::Default));
}

#[test]
fn simple_object() {
    let nu = "{\"a\":0}";
    let expected = "{
  \"a\": 0
}";
    assert_eq!(expected, format_nu(nu, Indentation::Default));
}

#[test]
fn simple_array() {
    let nu = "[1,2,null]";
    let expected = "[
  1,
  2,
  null
]";
    assert_eq!(expected, format_nu(nu, Indentation::Default));
}

#[test]
fn array_of_object() {
    let nu = "[{\"a\": 0}, {}, {\"a\": null}]";
    let expected = "[
  {
    \"a\": 0
  },
  {},
  {
    \"a\": null
  }
]";

    assert_eq!(expected, format_nu(nu, Indentation::Default));
}

#[test]
fn already_formatted() {
    let expected = "[
  {
    \"a\": 0
  },
  {},
  {
    \"a\": null
  }
]";

    assert_eq!(expected, format_nu(expected, Indentation::Default));
}
