use fang::actions::mst::rewrite;
use fang::mst::builder::MstBuilder;
use fang::mst::header::MstCompilers;
use fang::mst::{Mst, MstPlatformKnown, MstVersionKnown};

fn xbox_archive() -> Vec<u8> {
    let compilers = MstCompilers {
        tga_compiler_version: 1,
        ape_compiler_version: 1,
        mtx_compiler_version: 1,
        csv_compiler_version: 1,
        fnt_compiler_version: 1,
        sma_compiler_version: 1,
        gt_compiler_version: 1,
        wvb_compiler_version: 1,
        fpr_compiler_version: 1,
        cam_compiler_version: 1,
    };
    let mut builder = MstBuilder::new(MstVersionKnown::V180, MstPlatformKnown::Xbox, compilers);
    for i in 0..7u32 {
        builder.add_entry_memory(
            format!("entry{}.bin", i),
            vec![i as u8 + 1; (i * 700 + 5) as usize],
            Some(1_000_000 + i),
        );
    }
    builder.write_at(0, &Vec::new()).expect("Failed to write Mst")
}

#[test]
fn rewrite_mst() {
    let in_buf = xbox_archive();

    let mst = Mst::read(&in_buf).expect("Failed to parse Mst");

    // header make sense?
    assert!(mst.identifier.is_little());
    assert_eq!(mst.collect_entries().len(), 7);

    let mut out_buf = Vec::new();
    let content_offset_offsets = mst.write(&mut out_buf).expect("Failed to write Mst");

    // yep we're definitely writing offsets
    assert_eq!(content_offset_offsets.len(), 7);

    let expected_content_base = mst
        .collect_entries()
        .iter()
        .map(|e| e.offset)
        .min()
        .expect("gotta have entries") as usize;

    // we didn't write any content, so check if everything before that matches
    assert_eq!(expected_content_base, 2048);
    assert!(out_buf.len() <= expected_content_base);

    for (offset, out_byte) in out_buf.iter().enumerate() {
        assert_eq!(
            out_byte, &in_buf[offset],
            "Rewritten buffer doesn't match at offset {}",
            offset
        );
    }

    // laying the whole archive out anew gives the same bytes
    assert_eq!(rewrite(&in_buf).expect("Failed to rewrite Mst"), in_buf);
}
