use rewindos::ocr::{join_words, parse_tsv_output};

const SAMPLE_TSV: &str = "level\tpage_num\tblock_num\tpar_num\tline_num\tword_num\tleft\ttop\twidth\theight\tconf\ttext\n1\t1\t0\t0\t0\t0\t0\t0\t1920\t1080\t-1\t\n2\t1\t1\t0\t0\t0\t100\t50\t500\t200\t-1\t\n3\t1\t1\t1\t0\t0\t100\t50\t500\t100\t-1\t\n4\t1\t1\t1\t1\t0\t100\t50\t500\t25\t-1\t\n5\t1\t1\t1\t1\t1\t100\t50\t80\t20\t96.5\tHello\n5\t1\t1\t1\t1\t2\t190\t50\t90\t20\t94.2\tWorld\n4\t1\t1\t1\t2\t0\t100\t80\t500\t25\t-1\t\n5\t1\t1\t1\t2\t1\t100\t80\t120\t20\t91.0\tSecond\n5\t1\t1\t1\t2\t2\t230\t80\t60\t20\t88.3\tLine";

const TSV_WITH_LOW_CONFIDENCE: &str = "level\tpage_num\tblock_num\tpar_num\tline_num\tword_num\tleft\ttop\twidth\theight\tconf\ttext\n5\t1\t1\t1\t1\t1\t100\t50\t80\t20\t95.0\tGood\n5\t1\t1\t1\t1\t2\t190\t50\t90\t20\t10.0\tNoisy\n5\t1\t1\t1\t1\t3\t290\t50\t70\t20\t85.0\tWord";

#[test]
fn parse_tsv_should_extract_text_and_boxes() {
    let result = parse_tsv_output(SAMPLE_TSV).unwrap();
    assert_eq!(result.full_text, "Hello World\nSecond Line");
    assert_eq!(result.word_count, 4);
    assert_eq!(result.bounding_boxes.len(), 4);
}

#[test]
fn parse_tsv_should_populate_bounding_box_coordinates() {
    let result = parse_tsv_output(SAMPLE_TSV).unwrap();
    let first_box = &result.bounding_boxes[0];
    assert_eq!(first_box.text_content, "Hello");
    assert_eq!(first_box.x, 100);
    assert_eq!(first_box.y, 50);
    assert_eq!(first_box.width, 80);
    assert_eq!(first_box.height, 20);
    // 96.5% carried as integer hundredths
    assert_eq!(first_box.confidence_hundredths, Some(9650));
}

#[test]
fn parse_tsv_should_filter_low_confidence_words() {
    let result = parse_tsv_output(TSV_WITH_LOW_CONFIDENCE).unwrap();
    assert_eq!(result.full_text, "Good Word");
    assert_eq!(result.word_count, 2);
    assert_eq!(result.bounding_boxes.len(), 2);
}

#[test]
fn parse_tsv_should_handle_empty_input() {
    let tsv = "level\tpage_num\tblock_num\tpar_num\tline_num\tword_num\tleft\ttop\twidth\theight\tconf\ttext\n";
    let result = parse_tsv_output(tsv).unwrap();
    assert!(result.full_text.is_empty());
    assert_eq!(result.word_count, 0);
    assert!(result.bounding_boxes.is_empty());
}

#[test]
fn join_words_should_space_separate_on_same_line() {
    let parts = vec!["Hello".to_string(), "World".to_string()];
    assert_eq!(join_words(&parts), "Hello World");
}

#[test]
fn join_words_should_newline_between_lines() {
    let parts = vec!["Line1".to_string(), "\n".to_string(), "Line2".to_string()];
    assert_eq!(join_words(&parts), "Line1\nLine2");
}

#[test]
fn parse_tsv_skips_malformed_rows() {
    let tsv = "header\nnot a data row\n5\t1\t1\t1\t1\t1\t10\t20\t30\t40\t77\tOk";
    let result = parse_tsv_output(tsv).unwrap();
    assert_eq!(result.full_text, "Ok");
    assert_eq!(result.word_count, 1);
    assert_eq!(result.bounding_boxes[0].confidence_hundredths, Some(7700));
}
