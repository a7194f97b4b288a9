use vellum::docx::parse;

const DOC: &str = r#"<?xml version="1.0"?>
<w:document xmlns:w="x">
 <w:body>
  <w:p><w:pPr><w:pStyle w:val="Heading1"/></w:pPr><w:r><w:t>Title Here</w:t></w:r></w:p>
  <w:p><w:r><w:rPr><w:b/></w:rPr><w:t>bold</w:t></w:r><w:r><w:t> normal</w:t></w:r></w:p>
  <w:p><w:pPr><w:pStyle w:val="ListBullet"/></w:pPr><w:r><w:t>item one</w:t></w:r></w:p>
  <w:tbl>
   <w:tr><w:tc><w:p><w:r><w:t>Name</w:t></w:r></w:p></w:tc><w:tc><w:p><w:r><w:t>Age</w:t></w:r></w:p></w:tc></w:tr>
   <w:tr><w:tc><w:p><w:r><w:t>Ada</w:t></w:r></w:p></w:tc><w:tc><w:p><w:r><w:t>5</w:t></w:r></w:p></w:tc></w:tr>
  </w:tbl>
 </w:body>
</w:document>"#;

#[test]
fn converts_structure() {
    let md = parse(DOC);
    assert!(md.contains("# Title Here"), "heading: {md}");
    assert!(md.contains("**bold** normal"), "bold run: {md}");
    assert!(md.contains("- item one"), "list: {md}");
    assert!(md.contains("| Name | Age |"), "table header: {md}");
    assert!(md.contains("| Ada | 5 |"), "table row: {md}");
}

#[test]
fn heading_levels_and_italics() {
    let doc = r#"<w:document><w:body>
<w:p><w:pPr><w:pStyle w:val="Heading2"/></w:pPr><w:r><w:t>Sub</w:t></w:r></w:p>
<w:p><w:r><w:rPr><w:i/></w:rPr><w:t>slanted</w:t></w:r></w:p>
<w:p><w:r><w:rPr><w:b w:val="0"/></w:rPr><w:t>plain</w:t></w:r></w:p>
</w:body></w:document>"#;
    let md = parse(doc);
    assert!(md.contains("## Sub"), "{md}");
    assert!(md.contains("*slanted*"), "{md}");
    assert!(md.contains("plain") && !md.contains("**plain**"), "{md}");
}

#[test]
fn table_separator_and_pipes() {
    let doc = r#"<w:document><w:body><w:tbl>
<w:tr><w:tc><w:p><w:r><w:t>a|b</w:t></w:r></w:p></w:tc></w:tr>
<w:tr><w:tc><w:p><w:r><w:t>c</w:t></w:r></w:p></w:tc></w:tr>
</w:tbl></w:body></w:document>"#;
    let md = parse(doc);
    assert!(md.contains("| a\\|b |"), "{md}");
    assert!(md.contains("| --- |"), "{md}");
    assert!(md.contains("| c |"), "{md}");
}

#[test]
fn empty_document_is_empty() {
    assert_eq!(parse("<w:document><w:body></w:body></w:document>"), "");
}
