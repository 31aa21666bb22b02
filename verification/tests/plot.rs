use battlefield_sim::plot::xml_escape;

#[test]
fn escapes_markup_characters() {
    assert_eq!(xml_escape("a<b & c>d"), "a&lt;b &amp; c&gt;d");
    assert_eq!(xml_escape("&amp;"), "&amp;amp;");
    assert_eq!(xml_escape("算法耗时对比"), "算法耗时对比");
    assert_eq!(xml_escape(""), "");
}
