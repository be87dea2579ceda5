use ziggurat::filetypes::markup::{
    placeholder_text, replace_special_tags, restore_special_tags, IntegrityError,
};

fn pairs(tags: &[&str]) -> Vec<(String, String)> {
    tags.iter()
        .enumerate()
        .map(|(k, tag)| (format!("SPECIAL_TAG_{}", k), tag.to_string()))
        .collect()
}

fn round_trip(html: &str) -> Result<String, IntegrityError> {
    let (guarded, mapping) = replace_special_tags(html);
    restore_special_tags(guarded, mapping)
}

#[test]
fn placeholders_are_numbered_from_zero() {
    assert_eq!(placeholder_text(0), "SPECIAL_TAG_0");
    assert_eq!(placeholder_text(12), "SPECIAL_TAG_12");
}

#[test]
fn tags_with_pagebreak_give_way_to_placeholders() {
    let html = "<p>one</p>\n<span epub:type=\"pagebreak\" id=\"p1\"/>\n<p>two</p>\n<a pagebreak>\n";
    let (guarded, mapping) = replace_special_tags(html);
    assert_eq!(guarded, "<p>one</p>\nSPECIAL_TAG_0\n<p>two</p>\nSPECIAL_TAG_1\n");
    assert_eq!(
        mapping,
        vec![
            ("SPECIAL_TAG_0".to_string(), "<span epub:type=\"pagebreak\" id=\"p1\"/>".to_string()),
            ("SPECIAL_TAG_1".to_string(), "<a pagebreak>".to_string()),
        ]
    );
}

#[test]
fn a_tag_runs_from_its_angle_bracket_to_the_next() {
    let (guarded, mapping) = replace_special_tags("<p>x</p><br class='pagebreak'/>");
    assert_eq!(guarded, "<p>x</p>SPECIAL_TAG_0");
    assert_eq!(
        mapping,
        vec![("SPECIAL_TAG_0".to_string(), "<br class='pagebreak'/>".to_string())]
    );
    let (guarded, mapping) = replace_special_tags("x <p>a <i pagebreak/> b</p> y\nz");
    assert_eq!(guarded, "x <p>a SPECIAL_TAG_0 b</p> y\nz");
    assert_eq!(mapping, pairs(&["<i pagebreak/>"]));
}

#[test]
fn two_tags_on_a_line_get_two_placeholders() {
    let html = "<a pagebreak><b\npagebreak> and pagebreak alone, <c> and <d pagebreak";
    let (guarded, mapping) = replace_special_tags(html);
    assert_eq!(guarded, "SPECIAL_TAG_0SPECIAL_TAG_1 and pagebreak alone, <c> and <d pagebreak");
    assert_eq!(mapping, pairs(&["<a pagebreak>", "<b\npagebreak>"]));
}

#[test]
fn a_closing_tag_right_behind_goes_with_its_tag() {
    let html = "a<span epub:type=\"pagebreak\" id=\"p1\"></span>b<i pagebreak> </i><b pagebreak></";
    let (guarded, mapping) = replace_special_tags(html);
    assert_eq!(guarded, "aSPECIAL_TAG_0bSPECIAL_TAG_1 </i>SPECIAL_TAG_2</");
    assert_eq!(
        mapping,
        pairs(&["<span epub:type=\"pagebreak\" id=\"p1\"></span>", "<i pagebreak>", "<b pagebreak>"])
    );
    assert_eq!(restore_special_tags(guarded, mapping), Ok(html.to_string()));
}

#[test]
fn text_without_tags_stays_as_it_is() {
    let (guarded, mapping) = replace_special_tags("<p>no break here</p>");
    assert_eq!(guarded, "<p>no break here</p>");
    assert!(mapping.is_empty());
    assert_eq!(replace_special_tags(""), (String::new(), Vec::new()));
}

#[test]
fn equal_tags_get_placeholders_of_their_own() {
    let html = "<a pagebreak>\n<a pagebreak>\n";
    let (guarded, mapping) = replace_special_tags(html);
    assert_eq!(guarded, "SPECIAL_TAG_0\nSPECIAL_TAG_1\n");
    assert_eq!(mapping.len(), 2);
    assert_eq!(restore_special_tags(guarded, mapping), Ok(html.to_string()));
}

#[test]
fn a_placeholder_is_closed_where_a_digit_or_the_mark_follows() {
    let (guarded, mapping) = replace_special_tags("<pagebreak>5");
    assert_eq!(guarded, "SPECIAL_TAG_0_5");
    assert_eq!(mapping, pairs(&["<pagebreak>"]));
    assert_eq!(restore_special_tags(guarded, mapping), Ok("<pagebreak>5".to_string()));
    let (guarded, _) = replace_special_tags("<pagebreak>_x<pagebreak>y");
    assert_eq!(guarded, "SPECIAL_TAG_0__xSPECIAL_TAG_1y");
    for html in [
        "<pagebreak>5",
        "<pagebreak>_",
        "<pagebreak>__7",
        "a<pagebreak>0<pagebreak>1<pagebreak>_<pagebreak>",
        "<pagebreak><pagebreak>12",
    ] {
        assert_eq!(round_trip(html), Ok(html.to_string()));
    }
}

#[test]
fn placeholders_round_trip() {
    let mut html = String::new();
    for k in 0..25 {
        html.push_str(&format!("<p>text {}</p>\n<span class=\"pagebreak\" n=\"{}\"/>{}\n", k, k, k));
    }
    let (guarded, mapping) = replace_special_tags(&html);
    assert_eq!(mapping.len(), 25);
    assert!(guarded.contains("SPECIAL_TAG_24_24"));
    assert!(!guarded.contains("pagebreak"));
    for (k, (token, _)) in mapping.iter().enumerate() {
        assert_eq!(token, &format!("SPECIAL_TAG_{}", k));
        assert_eq!(guarded.matches(&format!("{}_", token)).count(), 1);
    }
    assert_eq!(restore_special_tags(guarded, mapping), Ok(html));
}

#[test]
fn tags_are_put_back_by_number() {
    let mapping = pairs(&["<a>", "<b>", "<c>"]);
    let text = "x SPECIAL_TAG_2 y SPECIAL_TAG_0_ z SPECIAL_TAG_1".to_string();
    assert_eq!(restore_special_tags(text, mapping), Ok("x <c> y <a> z <b>".to_string()));
}

#[test]
fn a_placeholder_takes_all_the_digits_behind_it() {
    let mut tags = Vec::new();
    for k in 0..11 {
        tags.push(format!("<{}>", k));
    }
    let tags: Vec<&str> = tags.iter().map(|tag| tag.as_str()).collect();
    let mut text = String::new();
    for k in (0..11).rev() {
        text.push_str(&format!("SPECIAL_TAG_{} ", k));
    }
    assert_eq!(
        restore_special_tags(text, pairs(&tags)),
        Ok("<10> <9> <8> <7> <6> <5> <4> <3> <2> <1> <0> ".to_string())
    );
    assert_eq!(
        restore_special_tags("SPECIAL_TAG_10".to_string(), pairs(&tags)),
        Err(IntegrityError::Missing { placeholder: 0 })
    );
}

#[test]
fn a_missing_placeholder_is_reported() {
    let mapping = pairs(&["<a>", "<b>"]);
    assert_eq!(
        restore_special_tags("only SPECIAL_TAG_0 here".to_string(), mapping),
        Err(IntegrityError::Missing { placeholder: 1 })
    );
    assert_eq!(
        restore_special_tags("SPECIAL_TAG_ 0".to_string(), pairs(&["<a>"])),
        Err(IntegrityError::Missing { placeholder: 0 })
    );
}

#[test]
fn a_repeated_placeholder_is_reported() {
    let mapping = pairs(&["<a>", "<b>"]);
    assert_eq!(
        restore_special_tags("SPECIAL_TAG_1 SPECIAL_TAG_0 SPECIAL_TAG_1".to_string(), mapping),
        Err(IntegrityError::Repeated { placeholder: 1 })
    );
}

#[test]
fn an_unknown_placeholder_is_reported() {
    let mapping = pairs(&["<a>"]);
    assert_eq!(
        restore_special_tags("ab SPECIAL_TAG_3 SPECIAL_TAG_0".to_string(), mapping),
        Err(IntegrityError::Unknown { position: 3 })
    );
    assert_eq!(
        restore_special_tags(
            "SPECIAL_TAG_99999999999999999999999999999999".to_string(),
            pairs(&["<a>"])
        ),
        Err(IntegrityError::Unknown { position: 0 })
    );
    assert_eq!(
        restore_special_tags("SPECIAL_TAG_0".to_string(), Vec::new()),
        Err(IntegrityError::Unknown { position: 0 })
    );
    assert_eq!(
        restore_special_tags("SPECIAL_TAG_05".to_string(), pairs(&["<a>"])),
        Err(IntegrityError::Unknown { position: 0 })
    );
}

#[test]
fn pairs_must_hold_the_placeholders_of_their_numbers() {
    let swapped = vec![
        ("SPECIAL_TAG_1".to_string(), "<a>".to_string()),
        ("SPECIAL_TAG_0".to_string(), "<b>".to_string()),
    ];
    assert_eq!(
        restore_special_tags("SPECIAL_TAG_0 SPECIAL_TAG_1".to_string(), swapped),
        Err(IntegrityError::Misnamed { placeholder: 0 })
    );
    let other = vec![
        ("SPECIAL_TAG_0".to_string(), "<a>".to_string()),
        ("TOKEN".to_string(), "<b>".to_string()),
    ];
    assert_eq!(
        restore_special_tags("SPECIAL_TAG_0 TOKEN".to_string(), other),
        Err(IntegrityError::Misnamed { placeholder: 1 })
    );
}

#[test]
fn text_without_placeholders_needs_no_tags() {
    assert_eq!(
        restore_special_tags("plain SPECIAL_TAG_ text".to_string(), Vec::new()),
        Ok("plain SPECIAL_TAG_ text".to_string())
    );
    assert_eq!(restore_special_tags(String::new(), Vec::new()), Ok(String::new()));
}
