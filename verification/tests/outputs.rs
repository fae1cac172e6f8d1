use base64::Engine;
use nbv::document::Cell;
use nbv::json::{parse, Json};
use nbv::outputs::{build, decode, picture_columns, pictures, Block, Images, MAX_TEXT_ROWS};

fn cell(outputs: &str) -> Cell {
    let text = format!(
        "{{\"cell_type\": \"code\", \"execution_count\": 1, \"metadata\": {{}}, \"outputs\": {outputs}, \"source\": \"\"}}"
    );
    match parse(text.as_bytes()).unwrap() {
        Json::Object(o) => Cell::from_raw(o),
        other => panic!("{other:?}"),
    }
}

#[test]
fn text_outputs_and_heights() {
    let c = cell(
        r#"[
            {"output_type": "stream", "name": "stdout", "text": ["a\n", "b\n"]},
            {"output_type": "execute_result", "execution_count": 1, "data": {"text/plain": ["42"]}, "metadata": {}},
            {"output_type": "error", "ename": "E", "evalue": "v", "traceback": ["line1\nline2"]},
            {"output_type": "display_data", "data": {"text/html": "<b>"}, "metadata": {}}
        ]"#,
    );
    let v = build(&c, 80, &vec![], &mut Images::default());
    assert_eq!(v.height, 2 + 1 + 2 + 1);
}

#[test]
fn long_lines_wrap_at_the_width() {
    let c = cell(r#"[{"output_type": "stream", "name": "stdout", "text": ["abcdefghij\n", "xy\n"]}]"#);
    let v = build(&c, 4, &vec![], &mut Images::default());
    let Block::Text(lines) = &v.blocks[0] else { panic!() };
    let rows: Vec<String> =
        lines.iter().map(|l| l.spans.iter().map(|s| s.content.as_str()).collect::<String>()).collect();
    assert_eq!(rows, ["abcd", "efgh", "ij", "xy"]);
    assert_eq!(v.height, 4);
}

#[test]
fn long_output_keeps_the_tail() {
    let text: Vec<String> = (0..100).map(|i| format!("\"{i}\\n\"")).collect();
    let c = cell(&format!("[{{\"output_type\": \"stream\", \"name\": \"stdout\", \"text\": [{}]}}]", text.join(",")));
    let v = build(&c, 80, &vec![], &mut Images::default());
    assert_eq!(v.height, MAX_TEXT_ROWS);
    let Block::Text(lines) = &v.blocks[0] else { panic!() };
    assert!(lines[0].spans[0].content.contains("61 earlier rows"));
    assert_eq!(lines.last().unwrap().spans[0].content, "99");
}

#[test]
fn an_undecodable_image_says_so() {
    let c = cell(
        r#"[{"output_type": "display_data",
            "data": {"image/png": "iVBORw0KGgo=", "text/plain": ["<Figure>"]}, "metadata": {}}]"#,
    );
    let v = build(&c, 80, &vec![], &mut Images::default());
    let Block::Text(lines) = &v.blocks[0] else { panic!("expected the error") };
    assert!(lines[0].spans[0].content.starts_with("image/png could not be decoded"), "{lines:?}");
}

#[test]
fn a_failed_run_shows_its_reason_under_the_outputs() {
    let mut c = cell(r#"[{"output_type": "stream", "name": "stdout", "text": ["old\n"]}]"#);
    c.runtime.error = Some("no kernel".into());
    let v = build(&c, 80, &vec![], &mut Images::default());
    let Block::Text(lines) = v.blocks.last().unwrap() else { panic!() };
    assert_eq!(lines[0].spans[0].content, "no kernel");
}

fn png(width: u32, height: u32) -> String {
    let mut png = vec![];
    let img = image::DynamicImage::new_rgb8(width, height);
    img.write_to(&mut std::io::Cursor::new(&mut png), image::ImageFormat::Png).unwrap();
    base64::engine::general_purpose::STANDARD.encode(&png)
}

#[test]
fn pictures_are_decoded_and_measured() {
    let b64 = png(40, 20);
    let img = decode(&b64).unwrap();
    assert_eq!((img.width(), img.height()), (40, 20));
    // Base64 comes in lines.
    let broken: String = b64.chars().flat_map(|c| [c, '\n']).collect();
    assert_eq!(decode(&broken).unwrap().width(), 40);
    assert!(decode("@@@@").is_err());

    let mut images = Images::default();
    let c = cell(&format!(
        "[{{\"output_type\": \"display_data\", \"data\": {{\"image/png\": \"{b64}\", \"text/plain\": [\"<Figure>\"]}}, \"metadata\": {{}}}}]"
    ));
    let found = pictures(&c, &mut images);
    assert_eq!(found, vec![(b64.clone(), (40, 20))]);
    let v = build(&c, 22, &vec![(20, 5)], &mut images);
    let Block::Image { cols, rows, .. } = v.blocks[0] else { panic!("expected an image") };
    assert_eq!((cols, rows), (20, 5));
    assert_eq!(v.height, 5);
}

#[test]
fn wide_characters_take_two_columns() {
    let c = cell(r#"[{"output_type": "stream", "name": "stdout", "text": ["日本語x\n"]}]"#);
    let v = build(&c, 4, &vec![], &mut Images::default());
    let Block::Text(lines) = &v.blocks[0] else { panic!() };
    assert_eq!(lines.len(), 2);
    let rows: Vec<String> =
        lines.iter().map(|l| l.spans.iter().map(|s| s.content.as_str()).collect::<String>()).collect();
    assert_eq!(rows, ["日本", "語x"]);
}

#[test]
fn pictures_leave_a_margin() {
    assert_eq!([0, 1, 2, 3, 4, 80].map(picture_columns), [1, 1, 1, 1, 2, 78]);
}
