use qoi::utils::{BytesMut, Writer};
use qoi::Error;

#[test]
fn a_new_sink_is_empty() {
    let sink = BytesMut::new(3);
    assert_eq!(sink.capacity(), 3);
    assert_eq!(sink.as_slice(), &[] as &[u8]);
}

#[test]
fn writes_append_in_order() {
    let sink = BytesMut::new(6);
    let sink = sink.write_one(1).unwrap();
    let sink = sink.write_many(&[2, 3, 4]).unwrap();
    let sink = sink.write_many(&[]).unwrap();
    let sink = sink.write_one(5).unwrap();
    assert_eq!(sink.capacity(), 1);
    assert_eq!(sink.as_slice(), &[1, 2, 3, 4, 5]);
    assert_eq!(sink.into_vec(), vec![1, 2, 3, 4, 5]);
}

#[test]
fn a_sink_can_be_filled_to_the_brim() {
    let sink = BytesMut::new(3).write_many(&[1, 2, 3]).unwrap();
    assert_eq!(sink.capacity(), 0);
    let sink = sink.write_many(&[]).unwrap();
    assert_eq!(sink.as_slice(), &[1, 2, 3]);
}

#[test]
fn a_full_sink_refuses_a_byte() {
    let sink = BytesMut::new(1).write_one(1).unwrap();
    assert_eq!(
        sink.write_one(2).err(),
        Some(Error::OutputBufferTooSmall { size: 0, required: 1 })
    );
    assert_eq!(
        BytesMut::new(0).write_one(2).err(),
        Some(Error::OutputBufferTooSmall { size: 0, required: 1 })
    );
}

#[test]
fn a_sink_refuses_bytes_that_do_not_fit() {
    let sink = BytesMut::new(4).write_one(1).unwrap();
    assert_eq!(
        sink.write_many(&[2, 3, 4, 5]).err(),
        Some(Error::OutputBufferTooSmall { size: 3, required: 4 })
    );
}
