use pdf_tools::naming::{convert_to_images, image_format, output_folder, page_file_name, ImageFormat};
use pdf_tools::selection::{parse_number, parse_selection, trim};
use pdf_tools::text::{decimal_digits, join};
use pdf_tools::Error;

fn chars(text: &str) -> Vec<char> {
    text.chars().collect()
}

fn select(text: &str) -> Option<Vec<u32>> {
    parse_selection(&chars(text))
}

#[test]
fn selection_of_numbers_and_ranges() {
    assert_eq!(select("1-3,5"), Some(vec![1, 2, 3, 5]));
    assert_eq!(select("7"), Some(vec![7]));
    assert_eq!(select("2,2,1"), Some(vec![2, 2, 1]));
    assert_eq!(select("4-4"), Some(vec![4]));
    assert_eq!(select("0-2"), Some(vec![0, 1, 2]));
    assert_eq!(select("+3"), Some(vec![3]));
    assert_eq!(select("007"), Some(vec![7]));
    assert_eq!(select("4294967294-4294967295"), Some(vec![4294967294, 4294967295]));
}

#[test]
fn selection_sets_white_space_around_parts_aside() {
    assert_eq!(select("  1-3 , 5  "), Some(vec![1, 2, 3, 5]));
    assert_eq!(select("\t2\u{a0},\u{3000}9\n"), Some(vec![2, 9]));
    // Inside a range white space is no part of a number.
    assert_eq!(select("1 - 3, 5"), Some(vec![5]));
    assert_eq!(select("1 2"), None);
}

#[test]
fn selection_passes_over_parts_that_name_no_page() {
    assert_eq!(select("a,2,,b-3,4-,-5,6"), Some(vec![2, 6]));
    assert_eq!(select("3-1,8"), Some(vec![8]));
    assert_eq!(select("1-2-3,9"), Some(vec![9]));
    assert_eq!(select("4294967296,1"), Some(vec![1]));
    assert_eq!(select("1.5,2"), Some(vec![2]));
    assert_eq!(select("+,++1,-,3"), Some(vec![3]));
}

#[test]
fn selection_that_names_no_page_is_none() {
    assert_eq!(select(""), None);
    assert_eq!(select("   "), None);
    assert_eq!(select(","), None);
    assert_eq!(select("x"), None);
    assert_eq!(select("5-2"), None);
    assert_eq!(select("99999999999"), None);
}

#[test]
fn parse_number_reads_what_u32_reads() {
    for text in ["0", "12", "+12", "0012", "4294967295", "4294967296", "", "+", "-1", "1a", " 1", "１"] {
        assert_eq!(parse_number(&chars(text)), text.parse::<u32>().ok(), "{:?}", text);
    }
}

#[test]
fn trim_cuts_what_str_trim_cuts() {
    for text in ["", " ", " a ", "\u{2003}a b\u{85}", "ab", "\u{200b}a ", "\r\n x\t"] {
        assert_eq!(trim(&chars(text)), chars(text.trim()), "{:?}", text);
    }
}

#[test]
fn decimal_digits_of_numbers() {
    assert_eq!(decimal_digits(0), b"0".to_vec());
    assert_eq!(decimal_digits(7), b"7".to_vec());
    assert_eq!(decimal_digits(10), b"10".to_vec());
    assert_eq!(decimal_digits(4096), b"4096".to_vec());
    assert_eq!(decimal_digits(u64::MAX), b"18446744073709551615".to_vec());
    assert_eq!(join(b"ab", b"cde"), b"abcde".to_vec());
    assert_eq!(join(b"", b""), Vec::<u8>::new());
}

#[test]
fn image_format_takes_capital_and_small_letters_alike() {
    assert_eq!(image_format(b"png"), Ok(ImageFormat::Png));
    assert_eq!(image_format(b"PNG"), Ok(ImageFormat::Png));
    assert_eq!(image_format(b"jpeg"), Ok(ImageFormat::Jpeg));
    assert_eq!(image_format(b"Jpg"), Ok(ImageFormat::Jpeg));
    assert_eq!(image_format(b"gif"), Err(Error::InvalidArgument));
    assert_eq!(image_format(b""), Err(Error::InvalidArgument));
    assert_eq!(image_format(b"png "), Err(Error::InvalidArgument));
    assert_eq!(image_format(b"p@g"), Err(Error::InvalidArgument));
}

#[test]
fn output_folder_is_named_after_the_file() {
    assert_eq!(output_folder(b"report", b"-pages", &Some(b"out".to_vec())), Some(b"report-pages".to_vec()));
    assert_eq!(output_folder(b"report", b"-pages", &None), Some(b"report-pages".to_vec()));
    assert_eq!(output_folder(b"report", b"-pages", &Some(b"report-pages".to_vec())), None);
    assert_eq!(
        output_folder(b"report", b"-pages", &Some(b"report-images".to_vec())),
        Some(b"report-pages".to_vec())
    );
}

#[test]
fn page_file_name_carries_the_page_number() {
    assert_eq!(page_file_name(1), b"page-1.pdf".to_vec());
    assert_eq!(page_file_name(12), b"page-12.pdf".to_vec());
    assert_eq!(page_file_name(u32::MAX), b"page-4294967295.pdf".to_vec());
}

#[test]
fn convert_to_images_plans_format_folder_and_prefix() {
    let plan = convert_to_images(&Some(b"scan".to_vec()), &Some(b"out".to_vec()), b"PNG").unwrap();
    assert_eq!(plan.format, ImageFormat::Png);
    assert_eq!(plan.folder, Some(b"scan-images".to_vec()));
    assert_eq!(plan.prefix, b"scan".to_vec());
    let plan = convert_to_images(&Some(b"scan".to_vec()), &Some(b"scan-images".to_vec()), b"jpg").unwrap();
    assert_eq!(plan.format, ImageFormat::Jpeg);
    assert_eq!(plan.folder, None);
    let plan = convert_to_images(&None, &Some(b"out".to_vec()), b"jpeg").unwrap();
    assert_eq!(plan.folder, None);
    assert_eq!(plan.prefix, b"page".to_vec());
    assert_eq!(
        convert_to_images(&Some(b"scan".to_vec()), &None, b"tiff").err(),
        Some(Error::InvalidArgument)
    );
}
