# vision_postprocessor

Post-processing of camera detections read from a Redis stream: each message
(JSON with detected objects and AprilTags) is parsed, its pixel coordinates are
converted to real-world coordinates camera by camera, and the result is
published to an output stream.

- `src/` is the verified library:
  - `message_parser`: which detections of a message are stored, in which slots,
    and the parse result;
  - `coordinate_converter`: the per-camera registries of calibrations and
    homographies, the split of a batch by camera with the layout of the points
    sent for conversion, and the routing of converted points back to each
    detection;
  - `stream_reply`: finding the payload field in a stream-read reply.
- `app/` is the program around it: Redis I/O, JSON decoding, the floating-point
  lens and homography arithmetic, and the parallel conversion of camera groups.
- `tests/` exercises the library on concrete values.
